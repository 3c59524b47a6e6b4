//! Block decomposition of the map: the `1600 x 900` map is cut into
//! `25 x 25` blocks, each block is solved on its own, and the block routes are
//! joined along a serpentine walk over the blocks.
use vstd::prelude::*;
use crate::tour::{is_tour, lemma_distinct_indices_len, lemma_tour_contains, Route};
use crate::greedy::{greedy, is_greedy_route, is_key_matrix};

verus! {

/// Width of the map, in coordinate units.
pub const MAP_WIDTH: usize = 1600;
/// Height of the map, in coordinate units.
pub const MAP_HEIGHT: usize = 900;
/// Side of a square block, in coordinate units.
pub const BLOCK_SIZE: usize = 25;
/// Blocks per row.
pub const BLOCKS_X: usize = 64;
/// Rows of blocks.
pub const BLOCKS_Y: usize = 36;
/// Number of blocks on the map.
pub const BLOCK_COUNT: usize = 2304;

/// Blocks per half row: the walk covers the left halves going down and the
/// right halves coming back up.
pub const HALF_BLOCKS_X: usize = 32;

/// The blocks tile the map: rows of `BLOCKS_X` blocks of side `BLOCK_SIZE`
/// span its width, `BLOCKS_Y` rows span its height, and each pass of the walk
/// covers half a row.
pub proof fn lemma_block_grid()
    ensures
        BLOCKS_X * BLOCK_SIZE == MAP_WIDTH,
        BLOCKS_Y * BLOCK_SIZE == MAP_HEIGHT,
        BLOCK_COUNT == BLOCKS_X * BLOCKS_Y,
        2 * HALF_BLOCKS_X == BLOCKS_X,
{
}

/// The block of a point with (truncated) coordinates `p`: row-major index of
/// its `25 x 25` cell. A point right of the map (`x >= 1600`) counts into a
/// later block of the rows below, as `y * 64 + x` does.
pub open spec fn block_of(p: (usize, usize)) -> int {
    (p.1 / 25) as int * 64 + (p.0 / 25) as int
}

/// The point's block index is one of the map's blocks. This admits points
/// right of the map (`x >= 1600`) in all but the last rows of blocks; their
/// index falls into a following row.
pub open spec fn in_map(p: (usize, usize)) -> bool {
    block_of(p) < BLOCK_COUNT
}

/// `members` lists, in increasing order, the indices of the points in block `b`.
pub open spec fn is_block_members(points: Seq<(usize, usize)>, b: int, members: Seq<usize>) -> bool {
    &&& forall|k: int, l: int| 0 <= k < l < members.len() ==> members[k] < members[l]
    &&& forall|k: int| 0 <= k < members.len() ==> {
            &&& (#[trigger] members[k]) < points.len()
            &&& block_of(points[members[k] as int]) == b
        }
    &&& forall|i: usize| i < points.len() && block_of(points[i as int]) == b ==> #[trigger] members.contains(i)
}

/// Block index of a point of the map.
pub fn block_index(p: (usize, usize)) -> (b: usize)
    requires
        in_map(p),
    ensures
        b == block_of(p),
{
    (p.1 / BLOCK_SIZE) * BLOCKS_X + p.0 / BLOCK_SIZE
}

/// Groups the point indices by block: entry `b` lists the points of block `b`
/// in increasing order.
pub fn assign_blocks(points: &Vec<(usize, usize)>) -> (blocks: Vec<Vec<usize>>)
    requires
        forall|i: int| 0 <= i < points.len() ==> in_map(#[trigger] points@[i]),
    ensures
        blocks.len() == BLOCK_COUNT,
        forall|b: int| 0 <= b < BLOCK_COUNT ==> is_block_members(points@, b, #[trigger] blocks@[b]@),
{
    let mut blocks: Vec<Vec<usize>> = Vec::new();
    let mut b: usize = 0;
    while b < BLOCK_COUNT
        invariant
            b <= BLOCK_COUNT,
            blocks.len() == b,
            forall|c: int| 0 <= c < b ==> (#[trigger] blocks@[c]@).len() == 0,
        decreases BLOCK_COUNT - b,
    {
        blocks.push(Vec::new());
        b = b + 1;
    }
    let mut i: usize = 0;
    while i < points.len()
        invariant
            i <= points.len(),
            forall|j: int| 0 <= j < points.len() ==> in_map(#[trigger] points@[j]),
            blocks.len() == BLOCK_COUNT,
            forall|c: int| #![trigger blocks@[c]] 0 <= c < BLOCK_COUNT ==> {
                let m = blocks@[c]@;
                &&& forall|k: int, l: int| 0 <= k < l < m.len() ==> m[k] < m[l]
                &&& forall|k: int| 0 <= k < m.len() ==> {
                        &&& (#[trigger] m[k]) < i
                        &&& block_of(points@[m[k] as int]) == c
                    }
                &&& forall|j: usize| j < i && block_of(points@[j as int]) == c ==> #[trigger] m.contains(j)
            },
        decreases points.len() - i,
    {
        let bi = block_index(points[i]);
        let ghost before = blocks@;
        blocks[bi].push(i);
        proof {
            assert forall|c: int| #![trigger blocks@[c]] 0 <= c < BLOCK_COUNT implies {
                let m = blocks@[c]@;
                &&& forall|k: int, l: int| 0 <= k < l < m.len() ==> m[k] < m[l]
                &&& forall|k: int| 0 <= k < m.len() ==> {
                        &&& (#[trigger] m[k]) < i + 1
                        &&& block_of(points@[m[k] as int]) == c
                    }
                &&& forall|j: usize| j < i + 1 && block_of(points@[j as int]) == c ==> #[trigger] m.contains(j)
            } by {
                let m = blocks@[c]@;
                let old_m = before[c]@;
                if c == bi {
                    assert(m == old_m.push(i));
                    assert forall|j: usize| j < i + 1 && block_of(points@[j as int]) == c implies #[trigger] m.contains(j) by {
                        if j == i {
                            assert(m[old_m.len() as int] == i);
                        } else {
                            assert(old_m.contains(j));
                            let w = choose|w: int| 0 <= w < old_m.len() && old_m[w] == j;
                            assert(m[w] == j);
                        }
                    }
                } else {
                    assert(m == old_m);
                }
            }
        }
        i = i + 1;
    }
    blocks
}

/// The block visited at step `p` of the walk: the left half of each row of
/// blocks from top to bottom, then the right half of each row from bottom to
/// top, every half row read right-to-left on even rows and left-to-right on
/// odd rows.
pub open spec fn visit_block(p: int) -> int {
    if p < 1152 {
        let y = p / 32;
        let t = p % 32;
        y * 64 + if y % 2 == 0 { 31 - t } else { t }
    } else {
        let q = p - 1152;
        let y = 35 - q / 32;
        let t = q % 32;
        y * 64 + if y % 2 == 0 { 63 - t } else { 32 + t }
    }
}

/// The step of the walk at which block `b` is visited.
pub open spec fn visit_step(b: int) -> int {
    let y = b / 64;
    let x = b % 64;
    if x < 32 {
        y * 32 + if y % 2 == 0 { 31 - x } else { x }
    } else {
        1152 + (35 - y) * 32 + if y % 2 == 0 { 63 - x } else { x - 32 }
    }
}

/// The walk visits every block exactly once: `visit_block` and `visit_step`
/// are inverse bijections between the steps and the blocks `0..BLOCK_COUNT`.
pub proof fn lemma_walk_is_bijection()
    ensures
        forall|p: int| 0 <= p < BLOCK_COUNT ==> {
            &&& 0 <= #[trigger] visit_block(p) < BLOCK_COUNT
            &&& visit_step(visit_block(p)) == p
        },
        forall|b: int| 0 <= b < BLOCK_COUNT ==> {
            &&& 0 <= #[trigger] visit_step(b) < BLOCK_COUNT
            &&& visit_block(visit_step(b)) == b
        },
{
    assert forall|p: int| 0 <= p < BLOCK_COUNT implies {
        &&& 0 <= #[trigger] visit_block(p) < BLOCK_COUNT
        &&& visit_step(visit_block(p)) == p
    } by {
        lemma_walk_step(p);
    }
    assert forall|b: int| 0 <= b < BLOCK_COUNT implies {
        &&& 0 <= #[trigger] visit_step(b) < BLOCK_COUNT
        &&& visit_block(visit_step(b)) == b
    } by {
        lemma_walk_block(b);
    }
}

proof fn lemma_walk_step(p: int)
    requires
        0 <= p < 2304,
    ensures
        0 <= visit_block(p) < 2304,
        visit_step(visit_block(p)) == p,
{
    let b = visit_block(p);
    if p < 1152 {
        let y = p / 32;
        let t = p % 32;
        let x = if y % 2 == 0 { 31 - t } else { t };
        assert(b == y * 64 + x);
        assert(b / 64 == y && b % 64 == x) by (nonlinear_arith)
            requires
                b == y * 64 + x,
                0 <= x < 64,
                0 <= y,
        ;
        assert(p == y * 32 + t);
    } else {
        let q = p - 1152;
        let y = 35 - q / 32;
        let t = q % 32;
        let x = if y % 2 == 0 { 63 - t } else { 32 + t };
        assert(b == y * 64 + x);
        assert(b / 64 == y && b % 64 == x) by (nonlinear_arith)
            requires
                b == y * 64 + x,
                0 <= x < 64,
                0 <= y,
        ;
        assert(q == (q / 32) * 32 + t);
    }
}

proof fn lemma_walk_block(b: int)
    requires
        0 <= b < 2304,
    ensures
        0 <= visit_step(b) < 2304,
        visit_block(visit_step(b)) == b,
{
    let y = b / 64;
    let x = b % 64;
    let p = visit_step(b);
    assert(b == y * 64 + x);
    if x < 32 {
        let t = if y % 2 == 0 { 31 - x } else { x };
        assert(p == y * 32 + t);
        assert(p / 32 == y && p % 32 == t) by (nonlinear_arith)
            requires
                p == y * 32 + t,
                0 <= t < 32,
                0 <= y,
        ;
    } else {
        let t = if y % 2 == 0 { 63 - x } else { x - 32 };
        let q = (35 - y) * 32 + t;
        assert(p == 1152 + q);
        assert(q / 32 == 35 - y && q % 32 == t) by (nonlinear_arith)
            requires
                q == (35 - y) * 32 + t,
                0 <= t < 32,
                0 <= 35 - y,
        ;
    }
}

/// The serpentine order in which block routes are joined.
pub fn block_visit_order() -> (order: Vec<usize>)
    ensures
        order.len() == BLOCK_COUNT,
        forall|p: int| 0 <= p < BLOCK_COUNT ==> #[trigger] order@[p] == visit_block(p),
        is_tour(order@, BLOCK_COUNT as nat),
{
    let mut order: Vec<usize> = Vec::new();
    let mut y: usize = 0;
    while y < BLOCKS_Y
        invariant
            y <= BLOCKS_Y,
            order.len() == y * 32,
            forall|p: int| 0 <= p < order.len() ==> #[trigger] order@[p] == visit_block(p),
        decreases BLOCKS_Y - y,
    {
        let mut t: usize = 0;
        while t < HALF_BLOCKS_X
            invariant
                y < BLOCKS_Y,
                t <= HALF_BLOCKS_X,
                order.len() == y * 32 + t,
                forall|p: int| 0 <= p < order.len() ==> #[trigger] order@[p] == visit_block(p),
            decreases HALF_BLOCKS_X - t,
        {
            let x = if y % 2 == 0 { HALF_BLOCKS_X - 1 - t } else { t };
            order.push(y * BLOCKS_X + x);
            t = t + 1;
        }
        y = y + 1;
    }
    let mut r: usize = 0;
    while r < BLOCKS_Y
        invariant
            r <= BLOCKS_Y,
            order.len() == 1152 + r * 32,
            forall|p: int| 0 <= p < order.len() ==> #[trigger] order@[p] == visit_block(p),
        decreases BLOCKS_Y - r,
    {
        let y = BLOCKS_Y - 1 - r;
        let mut t: usize = 0;
        while t < HALF_BLOCKS_X
            invariant
                r < BLOCKS_Y,
                y == BLOCKS_Y - 1 - r,
                t <= HALF_BLOCKS_X,
                order.len() == 1152 + r * 32 + t,
                forall|p: int| 0 <= p < order.len() ==> #[trigger] order@[p] == visit_block(p),
            decreases HALF_BLOCKS_X - t,
        {
            let x = if y % 2 == 0 { BLOCKS_X - 1 - t } else { HALF_BLOCKS_X + t };
            order.push(y * BLOCKS_X + x);
            t = t + 1;
        }
        r = r + 1;
    }
    proof {
        lemma_walk_is_bijection();
        assert forall|a: int, c: int| 0 <= a < order.len() && 0 <= c < order.len() && a != c implies order@[a]
            != order@[c] by {
            assert(visit_step(visit_block(a)) == a);
            assert(visit_step(visit_block(c)) == c);
        }
        assert forall|k: int| 0 <= k < order.len() implies (#[trigger] order@[k]) < BLOCK_COUNT by {
            assert(order@[k] == visit_block(k));
        }
    }
    order
}


/// Solves one block: the nearest-neighbour route over the block's points
/// (`keys` orders the distances between them, in the order of `members`),
/// expressed in the points' indices on the whole map.
pub fn solve_block(keys: &Vec<Vec<u64>>, members: &Vec<usize>) -> (route: Route)
    requires
        members.len() > 0,
        keys.len() == members.len(),
        is_key_matrix(keys@),
    ensures
        route.len() == members.len(),
        exists|local: Seq<usize>|
            {
                &&& is_tour(local, members.len() as nat)
                &&& is_greedy_route(keys@, local)
                &&& forall|k: int| 0 <= k < route.len() ==> #[trigger] route@[k] == members@[local[k] as int]
            },
        members@.no_duplicates() ==> route@.no_duplicates(),
        forall|x: usize| #[trigger] route@.contains(x) <==> members@.contains(x),
{
    let local = greedy(keys);
    let mut route: Vec<usize> = Vec::new();
    let mut k: usize = 0;
    while k < local.len()
        invariant
            k <= local.len(),
            local.len() == members.len(),
            is_tour(local@, members.len() as nat),
            route.len() == k,
            forall|l: int| 0 <= l < k ==> #[trigger] route@[l] == members@[local@[l] as int],
        decreases local.len() - k,
    {
        route.push(members[local[k]]);
        k = k + 1;
    }
    proof {
        if members@.no_duplicates() {
            assert forall|a: int, b: int| 0 <= a < route.len() && 0 <= b < route.len() && a != b implies route@[a]
                != route@[b] by {
                assert(local@[a] != local@[b]);
            }
        }
        let n = members.len() as nat;
        assert forall|x: usize| #[trigger] route@.contains(x) <==> members@.contains(x) by {
            if members@.contains(x) {
                let w = choose|w: int| 0 <= w < members.len() && members@[w] == x;
                assert forall|c: usize| (c as nat) < n implies #[trigger] local@.contains(c) by {
                    lemma_tour_contains(local@, n, c);
                }
                assert(local@.contains(w as usize));
                let l = choose|l: int| 0 <= l < local.len() && local@[l] == w as usize;
                assert(route@[l] == x);
            }
            if route@.contains(x) {
                let l = choose|l: int| 0 <= l < route.len() && route@[l] == x;
                assert(members@[local@[l] as int] == x);
            }
        }
    }
    route
}

/// The block routes joined along the walk: the routes of the blocks visited at
/// steps `0..steps`, one after the other.
pub open spec fn joined_routes(routes: Seq<Vec<usize>>, steps: int) -> Seq<usize>
    decreases steps,
{
    if steps <= 0 {
        Seq::empty()
    } else {
        joined_routes(routes, steps - 1) + routes[visit_block(steps - 1)]@
    }
}

/// Each block route visits exactly the points of its block, once each.
pub open spec fn routes_cover_blocks(points: Seq<(usize, usize)>, routes: Seq<Vec<usize>>) -> bool {
    &&& routes.len() == BLOCK_COUNT
    &&& forall|b: int| 0 <= b < BLOCK_COUNT ==> (#[trigger] routes[b])@.no_duplicates()
    &&& forall|b: int, x: usize|
            0 <= b < BLOCK_COUNT ==> (#[trigger] routes[b]@.contains(x) <==> (x < points.len() && block_of(
                points[x as int],
            ) == b))
}

/// A route that visits exactly the listed members of block `b`, once each,
/// visits exactly the points of block `b`.
pub proof fn lemma_members_route_covers_block(
    points: Seq<(usize, usize)>,
    b: int,
    members: Seq<usize>,
    route: Seq<usize>,
)
    requires
        is_block_members(points, b, members),
        route.no_duplicates(),
        forall|x: usize| #[trigger] route.contains(x) <==> members.contains(x),
    ensures
        forall|x: usize| #[trigger] route.contains(x) <==> (x < points.len() && block_of(points[x as int]) == b),
        members.no_duplicates(),
{
    assert forall|x: usize| #[trigger] route.contains(x) <==> (x < points.len() && block_of(
        points[x as int],
    ) == b) by {
        if members.contains(x) {
            let w = choose|w: int| 0 <= w < members.len() && members[w] == x;
            assert(members[w] < points.len());
        }
    }
    assert forall|k: int, l: int| 0 <= k < members.len() && 0 <= l < members.len() && k != l implies members[k]
        != members[l] by {
        if k < l {
            assert(members[k] < members[l]);
        } else {
            assert(members[l] < members[k]);
        }
    }
}

proof fn lemma_joined_prefix(points: Seq<(usize, usize)>, routes: Seq<Vec<usize>>, steps: int)
    requires
        forall|i: int| 0 <= i < points.len() ==> in_map(#[trigger] points[i]),
        routes_cover_blocks(points, routes),
        0 <= steps <= BLOCK_COUNT,
    ensures
        joined_routes(routes, steps).no_duplicates(),
        forall|x: usize| #[trigger] joined_routes(routes, steps).contains(x) <==> (x < points.len()
            && visit_step(block_of(points[x as int])) < steps),
    decreases steps,
{
    lemma_walk_is_bijection();
    if steps > 0 {
        lemma_joined_prefix(points, routes, steps - 1);
        let prev = joined_routes(routes, steps - 1);
        let b = visit_block(steps - 1);
        let part = routes[b]@;
        let j = joined_routes(routes, steps);
        assert(j == prev + part);
        assert forall|x: usize| part.contains(x) implies !prev.contains(x) && x < points.len() && visit_step(
            block_of(points[x as int]),
        ) == steps - 1 by {
            assert(routes[b]@.contains(x));
        }
        assert forall|a: int, c: int| 0 <= a < j.len() && 0 <= c < j.len() && a != c implies j[a]
            != j[c] by {
            if a < prev.len() && c >= prev.len() {
                assert(part.contains(j[c]));
                assert(prev.contains(j[a]));
            } else if c < prev.len() && a >= prev.len() {
                assert(part.contains(j[a]));
                assert(prev.contains(j[c]));
            } else if a >= prev.len() && c >= prev.len() {
                assert(routes[b]@.no_duplicates());
                assert(j[a] == part[a - prev.len()] && j[c] == part[c - prev.len()]);
            }
        }
        assert forall|x: usize| #[trigger] j.contains(x) <==> (x < points.len() && visit_step(
            block_of(points[x as int]),
        ) < steps) by {
            if j.contains(x) {
                let w = choose|w: int| 0 <= w < j.len() && j[w] == x;
                if w < prev.len() {
                    assert(prev.contains(x));
                } else {
                    assert(part[w - prev.len()] == x);
                    assert(part.contains(x));
                }
            }
            if x < points.len() && visit_step(block_of(points[x as int])) < steps {
                let bx = block_of(points[x as int]);
                assert(in_map(points[x as int]));
                if visit_step(bx) < steps - 1 {
                    assert(prev.contains(x));
                    let w = choose|w: int| 0 <= w < prev.len() && prev[w] == x;
                    assert(j[w] == x);
                } else {
                    assert(visit_block(visit_step(bx)) == bx);
                    assert(routes[b]@.contains(x));
                    let w = choose|w: int| 0 <= w < part.len() && part[w] == x;
                    assert(j[prev.len() + w] == x);
                }
            }
        }
    } else {
        assert forall|x: usize| x < points.len() implies visit_step(block_of(points[x as int])) >= 0 by {
            assert(in_map(points[x as int]));
        }
    }
}

/// Joining block routes that each visit exactly their block's points gives a
/// tour of all the points.
pub proof fn lemma_joined_routes_form_tour(points: Seq<(usize, usize)>, routes: Seq<Vec<usize>>)
    requires
        points.len() <= usize::MAX,
        forall|i: int| 0 <= i < points.len() ==> in_map(#[trigger] points[i]),
        routes_cover_blocks(points, routes),
    ensures
        is_tour(joined_routes(routes, BLOCK_COUNT as int), points.len()),
{
    lemma_walk_is_bijection();
    lemma_joined_prefix(points, routes, BLOCK_COUNT as int);
    let j = joined_routes(routes, BLOCK_COUNT as int);
    assert forall|k: int| 0 <= k < j.len() implies (#[trigger] j[k] as nat) < points.len() by {
        assert(j.contains(j[k]));
    }
    assert forall|c: usize| (c as nat) < points.len() implies #[trigger] j.contains(c) by {
        assert(in_map(points[c as int]));
    }
    lemma_distinct_indices_len(j, points.len());
}

/// Joining along the walk concatenates the block routes themselves, each in
/// its own order, in the order the walk visits their blocks.
pub proof fn lemma_joined_routes_concatenate(routes: Seq<Vec<usize>>, steps: int)
    requires
        0 <= steps,
    ensures
        joined_routes(routes, steps) == Seq::new(steps as nat, |p: int| routes[visit_block(p)]@).flatten_alt(),
    decreases steps,
{
    let parts = Seq::new(steps as nat, |p: int| routes[visit_block(p)]@);
    if steps > 0 {
        lemma_joined_routes_concatenate(routes, steps - 1);
        assert(parts.drop_last() =~= Seq::new((steps - 1) as nat, |p: int| routes[visit_block(p)]@));
    } else {
        assert(parts =~= Seq::<Seq<usize>>::empty());
    }
}

/// Joins the block routes (indexed by block) along the serpentine walk.
pub fn join_block_routes(block_routes: &Vec<Vec<usize>>) -> (route: Route)
    requires
        block_routes.len() == BLOCK_COUNT,
    ensures
        route@ == joined_routes(block_routes@, BLOCK_COUNT as int),
        route@ == Seq::new(BLOCK_COUNT as nat, |p: int| block_routes@[visit_block(p)]@).flatten(),
{
    let order = block_visit_order();
    proof {
        lemma_walk_is_bijection();
    }
    let mut route: Vec<usize> = Vec::new();
    let mut p: usize = 0;
    while p < BLOCK_COUNT
        invariant
            p <= BLOCK_COUNT,
            order.len() == BLOCK_COUNT,
            block_routes.len() == BLOCK_COUNT,
            forall|q: int| 0 <= q < BLOCK_COUNT ==> #[trigger] order@[q] == visit_block(q),
            forall|q: int| 0 <= q < BLOCK_COUNT ==> 0 <= #[trigger] visit_block(q) < BLOCK_COUNT,
            route@ == joined_routes(block_routes@, p as int),
        decreases BLOCK_COUNT - p,
    {
        let b = order[p];
        assert(0 <= visit_block(p as int) < BLOCK_COUNT);
        let part = &block_routes[b];
        let ghost start = route@;
        let mut k: usize = 0;
        while k < part.len()
            invariant
                k <= part.len(),
                route@ == start + part@.subrange(0, k as int),
            decreases part.len() - k,
        {
            route.push(part[k]);
            k = k + 1;
            assert(start + part@.subrange(0, k as int) =~= (start + part@.subrange(0, k - 1)).push(
                part@[k - 1],
            ));
        }
        assert(part@.subrange(0, part.len() as int) =~= part@);
        assert(joined_routes(block_routes@, p + 1) == joined_routes(block_routes@, p as int)
            + block_routes@[visit_block(p as int)]@);
        p = p + 1;
    }
    proof {
        lemma_joined_routes_concatenate(block_routes@, BLOCK_COUNT as int);
        Seq::new(BLOCK_COUNT as nat, |q: int| block_routes@[visit_block(q)]@).lemma_flatten_and_flatten_alt_are_equivalent();
    }
    route
}

} // verus!
