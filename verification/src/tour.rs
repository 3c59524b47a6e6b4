//! Tours: sequences of city indices that visit each of `0..n` exactly once.
use vstd::prelude::*;

verus! {

/// A route through the cities, as indices into the city list.
pub type Route = Vec<usize>;

/// `route` visits every city `0..n` exactly once.
pub open spec fn is_tour(route: Seq<usize>, n: nat) -> bool {
    &&& route.len() == n
    &&& route.no_duplicates()
    &&& forall|k: int| 0 <= k < route.len() ==> (#[trigger] route[k]) < n
}

/// `route` with the positions `i..j` read backwards.
pub open spec fn reversed_segment(route: Seq<usize>, i: int, j: int) -> Seq<usize> {
    Seq::new(route.len(), |k: int| if i <= k < j { route[i + j - 1 - k] } else { route[k] })
}

/// Reversing `route[i..j]` puts the city at position `i + j - 1 - k` at each
/// position `k` of the segment and leaves every other position as it was.
pub proof fn lemma_reversed_segment_positions(route: Seq<usize>, i: int, j: int)
    requires
        0 <= i <= j <= route.len(),
    ensures
        reversed_segment(route, i, j).len() == route.len(),
        forall|k: int| i <= k < j ==> #[trigger] reversed_segment(route, i, j)[k] == route[i + j - 1 - k],
        forall|k: int| 0 <= k < route.len() && !(i <= k < j) ==> #[trigger] reversed_segment(route, i, j)[k] == route[k],
{
}

/// Reverses `route[i..j]` in place.
pub fn reverse_segment(route: &mut Vec<usize>, i: usize, j: usize)
    requires
        i <= j <= old(route).len(),
    ensures
        final(route)@ == reversed_segment(old(route)@, i as int, j as int),
        final(route)@.len() == old(route)@.len(),
        forall|k: int| i <= k < j ==> #[trigger] final(route)@[k] == old(route)@[i + j - 1 - k],
        forall|k: int| 0 <= k < old(route)@.len() && !(i <= k < j) ==> #[trigger] final(route)@[k] == old(route)@[k],
{
    let ghost orig = route@;
    let mut lo = i;
    let mut hi = j;
    while hi - lo > 1
        invariant
            i <= lo <= hi <= j,
            j <= orig.len(),
            lo - i == j - hi,
            route@.len() == orig.len(),
            forall|k: int|
                0 <= k < route@.len() ==> #[trigger] route@[k] == if (i <= k < lo || hi <= k < j) {
                    orig[i + j - 1 - k]
                } else {
                    orig[k]
                },
        decreases hi - lo,
    {
        let a = route[lo];
        let b = route[hi - 1];
        route.set(lo, b);
        route.set(hi - 1, a);
        lo = lo + 1;
        hi = hi - 1;
    }
    assert(route@ =~= reversed_segment(orig, i as int, j as int));
}


/// The cities `0..n` as a set of indices.
pub open spec fn city_set(n: nat) -> Set<usize> {
    Set::new(|c: usize| (c as nat) < n)
}

proof fn lemma_city_set_len(n: nat)
    requires
        n <= usize::MAX + 1,
    ensures
        city_set(n).finite(),
        city_set(n).len() == n,
    decreases n,
{
    if n == 0 {
        assert(city_set(n) =~= Set::empty());
    } else {
        lemma_city_set_len((n - 1) as nat);
        assert(city_set((n - 1) as nat).insert((n - 1) as usize) =~= city_set(n));
    }
}

/// A duplicate-free sequence of indices below `n` has at most `n` entries,
/// and exactly `n` when it names every index below `n`.
pub proof fn lemma_distinct_indices_len(s: Seq<usize>, n: nat)
    requires
        n <= usize::MAX + 1,
        s.no_duplicates(),
        forall|k: int| 0 <= k < s.len() ==> (#[trigger] s[k] as nat) < n,
    ensures
        s.len() <= n,
        (forall|c: usize| (c as nat) < n ==> #[trigger] s.contains(c)) ==> s.len() == n,
{
    broadcast use vstd::set::group_set_axioms;
    s.unique_seq_to_set();
    lemma_city_set_len(n);
    assert(s.to_set().subset_of(city_set(n))) by {
        assert forall|c: usize| s.to_set().contains(c) implies city_set(n).contains(c) by {
            let k = choose|k: int| 0 <= k < s.len() && s[k] == c;
        }
    }
    vstd::set_lib::lemma_len_subset(s.to_set(), city_set(n));
    if forall|c: usize| (c as nat) < n ==> #[trigger] s.contains(c) {
        assert(s.to_set() =~= city_set(n));
    }
}

/// A tour of `0..n` names every city of `0..n`.
pub proof fn lemma_tour_contains(route: Seq<usize>, n: nat, c: usize)
    requires
        is_tour(route, n),
        n <= usize::MAX + 1,
        (c as nat) < n,
    ensures
        route.contains(c),
{
    broadcast use vstd::set::group_set_axioms;
    if !route.contains(c) {
        let s = route.push(c);
        assert(s.no_duplicates()) by {
            assert forall|a: int, b: int| 0 <= a < s.len() && 0 <= b < s.len() && a != b implies s[a] != s[b] by {
                if a < route.len() && b < route.len() {
                    assert(s[a] == route[a] && s[b] == route[b]);
                } else if a < route.len() {
                    assert(s[a] == route[a]);
                } else if b < route.len() {
                    assert(s[b] == route[b]);
                }
            }
        }
        assert forall|k: int| 0 <= k < s.len() implies (#[trigger] s[k] as nat) < n by {
            if k < route.len() {
                assert(s[k] == route[k]);
            }
        }
        lemma_distinct_indices_len(s, n);
    }
}

/// The leg leaving position `t` of a closed route of length `n`.
pub open spec fn cyclic_leg(route: Seq<usize>, n: int, t: int) -> (usize, usize) {
    (route[t], route[(t + 1) % n])
}

/// The legs whose distances make up a route's length, taken for each entry
/// `c` of the route in turn: the leg leaving position `c`.
pub open spec fn entry_legs(route: Seq<usize>, n: int) -> Seq<(usize, usize)> {
    Seq::new(route.len(), |k: int| cyclic_leg(route, n, route[k] as int))
}

/// Lists the legs that [`entry_legs`] describes.
pub fn route_legs(route: &Vec<usize>, n: usize) -> (legs: Vec<(usize, usize)>)
    requires
        n > 0 || route.len() == 0,
        forall|k: int| 0 <= k < route.len() ==> {
            &&& (#[trigger] route@[k]) < route.len()
            &&& (route@[k] + 1) % (n as int) < route.len()
        },
    ensures
        legs@ == entry_legs(route@, n as int),
{
    let mut legs: Vec<(usize, usize)> = Vec::new();
    let mut k: usize = 0;
    while k < route.len()
        invariant
            k <= route.len(),
            n > 0 || route.len() == 0,
            forall|l: int| 0 <= l < route.len() ==> {
                &&& (#[trigger] route@[l]) < route.len()
                &&& (route@[l] + 1) % (n as int) < route.len()
            },
            legs.len() == k,
            forall|l: int| 0 <= l < k ==> #[trigger] legs@[l] == cyclic_leg(route@, n as int, route@[l] as int),
        decreases route.len() - k,
    {
        let c = route[k];
        legs.push((route[c], route[(c + 1) % n]));
        k = k + 1;
    }
    assert(legs@ =~= entry_legs(route@, n as int));
    legs
}

/// For a tour, the legs taken entry by entry are the legs leaving each
/// position once: the route's length is that of the closed tour.
pub proof fn lemma_route_legs_cover_cycle(route: Seq<usize>, n: nat)
    requires
        is_tour(route, n),
        n <= usize::MAX + 1,
    ensures
        entry_legs(route, n as int).len() == n,
        forall|t: int| 0 <= t < n ==> #[trigger] entry_legs(route, n as int).contains(cyclic_leg(route, n as int, t)),
{
    let legs = entry_legs(route, n as int);
    assert forall|t: int| 0 <= t < n implies #[trigger] legs.contains(cyclic_leg(route, n as int, t)) by {
        lemma_tour_contains(route, n, t as usize);
        let k = choose|k: int| 0 <= k < route.len() && route[k] == t as usize;
        assert(legs[k] == cyclic_leg(route, n as int, t));
    }
}

/// The leg leaving each position of a closed route, position by position.
pub open spec fn cyclic_legs(route: Seq<usize>, n: int) -> Seq<(usize, usize)> {
    Seq::new(route.len(), |t: int| cyclic_leg(route, n, t))
}

/// Two lists of legs hold the same legs, each once.
pub open spec fn same_legs(a: Seq<(usize, usize)>, b: Seq<(usize, usize)>) -> bool {
    &&& a.len() == b.len()
    &&& a.no_duplicates()
    &&& b.no_duplicates()
    &&& forall|x: (usize, usize)| a.contains(x) <==> b.contains(x)
}

/// `route` started from position `s` instead of position 0.
pub open spec fn rotated(route: Seq<usize>, s: int) -> Seq<usize> {
    Seq::new(route.len(), |t: int| route[(t + s) % (route.len() as int)])
}

/// The same legs travelled the other way.
pub open spec fn swapped_legs(legs: Seq<(usize, usize)>) -> Seq<(usize, usize)> {
    legs.map_values(|p: (usize, usize)| (p.1, p.0))
}

proof fn lemma_mod_wrap(x: int, n: int)
    requires
        0 <= x < 2 * n,
        n >= 1,
    ensures
        x % n == if x < n { x } else { x - n },
{
    if x < n {
        vstd::arithmetic::div_mod::lemma_small_mod(x as nat, n as nat);
    } else {
        vstd::arithmetic::div_mod::lemma_small_mod((x - n) as nat, n as nat);
        vstd::arithmetic::div_mod::lemma_mod_add_multiples_vanish(x - n, n);
    }
}

proof fn lemma_cyclic_legs_distinct(route: Seq<usize>, n: nat)
    requires
        is_tour(route, n),
    ensures
        cyclic_legs(route, n as int).no_duplicates(),
{
    let legs = cyclic_legs(route, n as int);
    assert forall|a: int, b: int| 0 <= a < legs.len() && 0 <= b < legs.len() && a != b implies legs[a]
        != legs[b] by {
        assert(legs[a].0 == route[a] && legs[b].0 == route[b]);
    }
}

/// For a tour, the legs taken entry by entry are the legs leaving each
/// position, each once.
pub proof fn lemma_entry_legs_are_cyclic_legs(route: Seq<usize>, n: nat)
    requires
        is_tour(route, n),
        n <= usize::MAX + 1,
    ensures
        same_legs(entry_legs(route, n as int), cyclic_legs(route, n as int)),
{
    let e = entry_legs(route, n as int);
    let c = cyclic_legs(route, n as int);
    lemma_cyclic_legs_distinct(route, n);
    assert forall|a: int, b: int| 0 <= a < e.len() && 0 <= b < e.len() && a != b implies e[a] != e[b] by {
        assert(e[a].0 == route[route[a] as int] && e[b].0 == route[route[b] as int]);
        assert(route[a] != route[b]);
    }
    assert forall|x: (usize, usize)| e.contains(x) <==> c.contains(x) by {
        if e.contains(x) {
            let k = choose|k: int| 0 <= k < e.len() && e[k] == x;
            assert(c[route[k] as int] == x);
        }
        if c.contains(x) {
            let t = choose|t: int| 0 <= t < c.len() && c[t] == x;
            lemma_tour_contains(route, n, t as usize);
            let k = choose|k: int| 0 <= k < route.len() && route[k] == t as usize;
            assert(e[k] == x);
        }
    }
}

/// Starting a tour from another position gives a tour with the same legs.
pub proof fn lemma_rotation_keeps_legs(route: Seq<usize>, n: nat, s: int)
    requires
        is_tour(route, n),
        n >= 1,
        0 <= s < n,
    ensures
        is_tour(rotated(route, s), n),
        same_legs(cyclic_legs(rotated(route, s), n as int), cyclic_legs(route, n as int)),
{
    let m = n as int;
    let r = rotated(route, s);
    assert forall|t: int| 0 <= t < m implies #[trigger] r[t] == route[if t + s < m { t + s } else { t + s - m }] by {
        lemma_mod_wrap(t + s, m);
    }
    assert forall|a: int, b: int| 0 <= a < m && 0 <= b < m && a != b implies r[a] != r[b] by {
        assert(r[a] == route[if a + s < m { a + s } else { a + s - m }]);
        assert(r[b] == route[if b + s < m { b + s } else { b + s - m }]);
    }
    assert forall|k: int| 0 <= k < m implies (#[trigger] r[k]) < n by {
        assert(r[k] == route[if k + s < m { k + s } else { k + s - m }]);
    }
    let cr = cyclic_legs(r, m);
    let c = cyclic_legs(route, m);
    lemma_cyclic_legs_distinct(route, n);
    lemma_cyclic_legs_distinct(r, n);
    assert forall|t: int| 0 <= t < m implies #[trigger] cr[t] == c[if t + s < m { t + s } else { t + s - m }] by {
        lemma_mod_wrap(t + 1, m);
        lemma_mod_wrap(t + s, m);
        let u = if t + s < m { t + s } else { t + s - m };
        lemma_mod_wrap(u + 1, m);
        let t1 = if t + 1 < m { t + 1 } else { 0 };
        lemma_mod_wrap(t1 + s, m);
        assert(r[t] == route[u]);
        assert(r[t1] == route[if t1 + s < m { t1 + s } else { t1 + s - m }]);
    }
    assert forall|x: (usize, usize)| cr.contains(x) <==> c.contains(x) by {
        if cr.contains(x) {
            let t = choose|t: int| 0 <= t < cr.len() && cr[t] == x;
            assert(c[if t + s < m { t + s } else { t + s - m }] == x);
        }
        if c.contains(x) {
            let u = choose|u: int| 0 <= u < c.len() && c[u] == x;
            let t = if u >= s { u - s } else { u - s + m };
            assert(cr[t] == c[u]);
        }
    }
}

/// Travelling a tour backwards gives a tour whose legs are the tour's legs,
/// each travelled the other way.
pub proof fn lemma_reversal_swaps_legs(route: Seq<usize>, n: nat)
    requires
        is_tour(route, n),
        n >= 1,
    ensures
        is_tour(route.reverse(), n),
        same_legs(swapped_legs(cyclic_legs(route.reverse(), n as int)), cyclic_legs(route, n as int)),
{
    let m = n as int;
    let r = route.reverse();
    assert forall|a: int, b: int| 0 <= a < m && 0 <= b < m && a != b implies r[a] != r[b] by {
        assert(r[a] == route[m - 1 - a] && r[b] == route[m - 1 - b]);
    }
    assert forall|k: int| 0 <= k < m implies (#[trigger] r[k]) < n by {
        assert(r[k] == route[m - 1 - k]);
    }
    let sw = swapped_legs(cyclic_legs(r, m));
    let c = cyclic_legs(route, m);
    lemma_cyclic_legs_distinct(route, n);
    assert forall|t: int| 0 <= t < m implies #[trigger] sw[t] == c[if t + 1 < m { m - 2 - t } else { m - 1 }] by {
        lemma_mod_wrap(t + 1, m);
        if t + 1 < m {
            lemma_mod_wrap(m - 1 - t, m);
        } else {
            lemma_mod_wrap(m, m);
        }
    }
    assert forall|a: int, b: int| 0 <= a < m && 0 <= b < m && a != b implies sw[a] != sw[b] by {
        assert(sw[a] == c[if a + 1 < m { m - 2 - a } else { m - 1 }]);
        assert(sw[b] == c[if b + 1 < m { m - 2 - b } else { m - 1 }]);
    }
    assert forall|x: (usize, usize)| sw.contains(x) <==> c.contains(x) by {
        if sw.contains(x) {
            let t = choose|t: int| 0 <= t < sw.len() && sw[t] == x;
            assert(c[if t + 1 < m { m - 2 - t } else { m - 1 }] == x);
        }
        if c.contains(x) {
            let p = choose|p: int| 0 <= p < c.len() && c[p] == x;
            let t = if p == m - 1 { m - 1 } else { m - 2 - p };
            assert(sw[t] == c[p]);
        }
    }
}

/// A route's length does not depend on where the tour starts nor on its
/// direction: the legs listed for a tour started from another position are
/// the tour's legs, and those listed for the reversed tour are the tour's
/// legs travelled the other way.
pub proof fn lemma_route_legs_ignore_start_and_direction(route: Seq<usize>, n: nat, s: int)
    requires
        is_tour(route, n),
        1 <= n <= usize::MAX + 1,
        0 <= s < n,
    ensures
        same_legs(entry_legs(rotated(route, s), n as int), entry_legs(route, n as int)),
        same_legs(swapped_legs(entry_legs(route.reverse(), n as int)), entry_legs(route, n as int)),
{
    let m = n as int;
    lemma_rotation_keeps_legs(route, n, s);
    lemma_reversal_swaps_legs(route, n);
    lemma_entry_legs_are_cyclic_legs(route, n);
    lemma_entry_legs_are_cyclic_legs(rotated(route, s), n);
    lemma_entry_legs_are_cyclic_legs(route.reverse(), n);
    let e = entry_legs(route, m);
    let er = entry_legs(rotated(route, s), m);
    let ev = entry_legs(route.reverse(), m);
    let cv = cyclic_legs(route.reverse(), m);
    let sv = swapped_legs(ev);
    let scv = swapped_legs(cv);
    assert forall|x: (usize, usize)| er.contains(x) <==> e.contains(x) by {
        assert(er.contains(x) <==> cyclic_legs(rotated(route, s), m).contains(x));
        assert(cyclic_legs(rotated(route, s), m).contains(x) <==> cyclic_legs(route, m).contains(x));
    }
    assert forall|a: int, b: int| 0 <= a < sv.len() && 0 <= b < sv.len() && a != b implies sv[a] != sv[b] by {
        assert(ev[a] != ev[b]);
    }
    assert forall|x: (usize, usize)| sv.contains(x) <==> e.contains(x) by {
        if sv.contains(x) {
            let k = choose|k: int| 0 <= k < sv.len() && sv[k] == x;
            assert(cv.contains(ev[k]));
            let t = choose|t: int| 0 <= t < cv.len() && cv[t] == ev[k];
            assert(scv[t] == x);
            assert(scv.contains(x));
        }
        if e.contains(x) {
            assert(cyclic_legs(route, m).contains(x));
            assert(scv.contains(x));
            let t = choose|t: int| 0 <= t < scv.len() && scv[t] == x;
            assert(ev.contains(cv[t]));
            let k = choose|k: int| 0 <= k < ev.len() && ev[k] == cv[t];
            assert(sv[k] == x);
        }
    }
}

/// Reversing a segment of a tour gives a tour of the same cities.
pub proof fn lemma_reversed_segment_is_tour(route: Seq<usize>, n: nat, i: int, j: int)
    requires
        is_tour(route, n),
        0 <= i <= j <= route.len(),
    ensures
        is_tour(reversed_segment(route, i, j), n),
{
    let r = reversed_segment(route, i, j);
    assert forall|a: int, b: int| 0 <= a < r.len() && 0 <= b < r.len() && a != b implies r[a]
        != r[b] by {
        let fa = if i <= a < j { i + j - 1 - a } else { a };
        let fb = if i <= b < j { i + j - 1 - b } else { b };
        assert(r[a] == route[fa]);
        assert(r[b] == route[fb]);
    }
    assert forall|k: int| 0 <= k < r.len() implies (#[trigger] r[k]) < n by {
        let fk = if i <= k < j { i + j - 1 - k } else { k };
        assert(r[k] == route[fk]);
    }
}

/// Reversing the same segment twice restores the route.
pub proof fn lemma_reversed_segment_twice(route: Seq<usize>, i: int, j: int)
    requires
        0 <= i <= j <= route.len(),
    ensures
        reversed_segment(reversed_segment(route, i, j), i, j) == route,
{
    assert(reversed_segment(reversed_segment(route, i, j), i, j) =~= route);
}

} // verus!
