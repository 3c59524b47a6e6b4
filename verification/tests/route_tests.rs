use tsp::blocks::{
    assign_blocks, block_index, block_visit_order, join_block_routes, solve_block, BLOCK_COUNT,
};
use tsp::depot::{rotate_to_depot, tour_legs};
use tsp::greedy::{greedy, nearest_unvisited};
use tsp::held_karp::held_karp_route;
use tsp::pagination::{effective_page_size, page_count, page_offset, PaginationResult, TspSetForm};
use tsp::tour::{reverse_segment, route_legs};
use tsp::two_opt::{apply_move, move_cities, ordered_move, MoveCities};

fn is_permutation(route: &[usize], n: usize) -> bool {
    let mut seen = vec![false; n];
    if route.len() != n {
        return false;
    }
    for &c in route {
        if c >= n || seen[c] {
            return false;
        }
        seen[c] = true;
    }
    true
}

fn key(d: f64) -> u64 {
    d.to_bits()
}

fn key_matrix(points: &[(f64, f64)]) -> Vec<Vec<u64>> {
    points
        .iter()
        .map(|a| points.iter().map(|b| key((a.0 - b.0).hypot(a.1 - b.1))).collect())
        .collect()
}

#[test]
fn reverse_segment_reverses_the_middle() {
    let mut r = vec![0, 1, 2, 3, 4, 5];
    reverse_segment(&mut r, 1, 4);
    assert_eq!(r, vec![0, 3, 2, 1, 4, 5]);
    reverse_segment(&mut r, 1, 4);
    assert_eq!(r, vec![0, 1, 2, 3, 4, 5]);
    reverse_segment(&mut r, 2, 2);
    assert_eq!(r, vec![0, 1, 2, 3, 4, 5]);
    reverse_segment(&mut r, 0, 6);
    assert_eq!(r, vec![5, 4, 3, 2, 1, 0]);
}

#[test]
fn ordered_move_needs_two_apart() {
    assert_eq!(ordered_move(5, 2), Some((2, 5)));
    assert_eq!(ordered_move(2, 5), Some((2, 5)));
    assert_eq!(ordered_move(3, 4), None);
    assert_eq!(ordered_move(4, 3), None);
    assert_eq!(ordered_move(4, 4), None);
}

#[test]
fn move_cities_wraps_before_start() {
    let r = vec![7, 3, 5, 1, 9];
    assert_eq!(
        move_cities(&r, 0, 3),
        MoveCities { before_start: 9, start: 7, before_end: 5, end: 1 }
    );
    assert_eq!(
        move_cities(&r, 1, 4),
        MoveCities { before_start: 7, start: 3, before_end: 1, end: 9 }
    );
}

#[test]
fn apply_move_keeps_a_tour() {
    let mut r = vec![0, 4, 2, 3, 1];
    apply_move(&mut r, 1, 5);
    assert_eq!(r, vec![0, 1, 3, 2, 4]);
    assert!(is_permutation(&r, 5));
}

#[test]
fn nearest_unvisited_breaks_ties_by_index() {
    let row = vec![5, 3, 3, 1];
    assert_eq!(nearest_unvisited(&row, &vec![false, false, false, true]), Some(1));
    assert_eq!(nearest_unvisited(&row, &vec![false, false, false, false]), Some(3));
    assert_eq!(nearest_unvisited(&row, &vec![true, true, true, true]), None);
}

#[test]
fn greedy_follows_nearest_city() {
    // cities on a line at 0, 10, 3, 7
    let pts = [(0.0, 0.0), (10.0, 0.0), (3.0, 0.0), (7.0, 0.0)];
    let keys = key_matrix(&pts);
    assert_eq!(greedy(&keys), vec![0, 2, 3, 1]);
}

#[test]
fn greedy_without_cities_is_depot_only() {
    let keys: Vec<Vec<u64>> = Vec::new();
    assert_eq!(greedy(&keys), vec![0]);
}

#[test]
fn greedy_single_city() {
    assert_eq!(greedy(&vec![vec![0]]), vec![0]);
}

fn held_karp_table(dist: &Vec<Vec<f64>>) -> Vec<Vec<usize>> {
    let n = dist.len();
    let mut dp = vec![vec![std::f64::MAX; 1 << n]; n];
    let mut backtrack = vec![vec![0; 1 << n]; n];
    for i in 0..n {
        dp[i][0] = dist[i][0];
    }
    for unvisited in 0..(1usize << n) {
        for current in 0..n {
            if (unvisited & (1 << current)) != 0 {
                continue;
            }
            for next in 0..n {
                if (unvisited & (1 << next)) == 0 {
                    continue;
                }
                let next_unvisited = unvisited ^ (1 << next);
                let score = dp[next][next_unvisited] + dist[current][next];
                if score < dp[current][unvisited] {
                    dp[current][unvisited] = score;
                    backtrack[current][unvisited] = next;
                }
            }
        }
    }
    backtrack
}

#[test]
fn held_karp_recovers_optimal_tour() {
    let pts = [(0.0, 0.0), (10.0, 10.0), (0.0, 10.0), (10.0, 0.0)];
    let dist: Vec<Vec<f64>> = pts
        .iter()
        .map(|a| pts.iter().map(|b| ((a.0 - b.0) as f64).hypot(a.1 - b.1)).collect())
        .collect();
    let table = held_karp_table(&dist);
    let route = held_karp_route(&table).unwrap();
    assert!(is_permutation(&route, 4));
    assert_eq!(route[0], 0);
    // the square's perimeter, not a diagonal
    assert!(route == vec![0, 2, 1, 3] || route == vec![0, 3, 1, 2]);
}

#[test]
fn held_karp_single_city() {
    let table = vec![vec![0, 0]];
    assert_eq!(held_karp_route(&table), Some(vec![0]));
}

#[test]
fn walk_keeps_going_through_visited_cities() {
    // three cities: 0 -> 1 -> 0 -> 0 -> 2, toggling bits as it goes
    let mut t = vec![vec![0; 8]; 3];
    t[0][0b110] = 1;
    t[1][0b100] = 0;
    t[0][0b101] = 0;
    t[0][0b100] = 2;
    assert_eq!(held_karp_route(&t), Some(vec![0, 1, 0, 0, 2]));
}

#[test]
fn walk_without_end_gives_none() {
    // 0 -> 0 -> 0 ... toggles city 0 back and forth and never ends
    assert_eq!(held_karp_route(&vec![vec![0; 4], vec![0; 4]]), None);
    // an entry beyond the table: the next move has no row
    let mut t = vec![vec![0; 4], vec![0; 4]];
    t[0][2] = 7;
    assert_eq!(held_karp_route(&t), None);
    // an entry that is no bit position
    t[0][2] = usize::MAX;
    assert_eq!(held_karp_route(&t), None);
    t[0][2] = 1;
    assert_eq!(held_karp_route(&t), Some(vec![0, 1]));
    // only the entries on the walk matter
    t[1][1] = 1;
    assert_eq!(held_karp_route(&t), Some(vec![0, 1]));
}

#[test]
fn held_karp_follows_the_table() {
    // three cities; from 0 with {1,2} left go to 2, then to 1
    let mut t = vec![vec![0; 8]; 3];
    t[0][0b110] = 2;
    t[2][0b010] = 1;
    for c in 0..3 {
        for u in 1..8usize {
            if u & (1 << c) == 0 && t[c][u] == 0 {
                t[c][u] = u.trailing_zeros() as usize;
            }
        }
    }
    assert_eq!(held_karp_route(&t), Some(vec![0, 2, 1]));
}

#[test]
fn block_index_is_row_major() {
    assert_eq!(block_index((0, 0)), 0);
    assert_eq!(block_index((24, 24)), 0);
    assert_eq!(block_index((25, 0)), 1);
    assert_eq!(block_index((0, 25)), 64);
    assert_eq!(block_index((1599, 899)), BLOCK_COUNT - 1);
}

#[test]
fn assign_blocks_groups_by_block() {
    let pts = vec![(30, 0), (0, 0), (26, 10), (1599, 899), (5, 5)];
    let blocks = assign_blocks(&pts);
    assert_eq!(blocks.len(), BLOCK_COUNT);
    assert_eq!(blocks[0], vec![1, 4]);
    assert_eq!(blocks[1], vec![0, 2]);
    assert_eq!(blocks[BLOCK_COUNT - 1], vec![3]);
    assert_eq!(blocks.iter().map(|b| b.len()).sum::<usize>(), 5);
}

#[test]
fn visit_order_is_serpentine() {
    let order = block_visit_order();
    assert_eq!(order.len(), BLOCK_COUNT);
    assert_eq!(&order[0..3], &[31, 30, 29]);
    assert_eq!(order[31], 0);
    assert_eq!(&order[32..34], &[64, 65]);
    assert_eq!(order[1152], 35 * 64 + 32);
    assert_eq!(order[1152 + 32], 34 * 64 + 63);
    assert_eq!(order[BLOCK_COUNT - 1], 32);
    assert!(is_permutation(&order, BLOCK_COUNT));
}

#[test]
fn solve_block_maps_back_to_map_indices() {
    let members = vec![4, 9, 11];
    // local cities at x = 0, 10, 2
    let keys = key_matrix(&[(0.0, 0.0), (10.0, 0.0), (2.0, 0.0)]);
    assert_eq!(solve_block(&keys, &members), vec![4, 11, 9]);
}

#[test]
fn join_follows_the_walk() {
    let mut routes = vec![Vec::new(); BLOCK_COUNT];
    routes[0] = vec![5, 6];
    routes[31] = vec![1];
    routes[64] = vec![2];
    routes[32] = vec![9];
    routes[35 * 64 + 32] = vec![7];
    assert_eq!(join_block_routes(&routes), vec![1, 5, 6, 2, 7, 9]);
}

#[test]
fn map_reduce_pipeline_is_a_tour() {
    let pts: Vec<(usize, usize)> = (0..BLOCK_COUNT)
        .flat_map(|b| {
            let (y, x) = (b / 64, b % 64);
            vec![(x * 25 + 3, y * 25 + 4), (x * 25 + 20, y * 25 + 1)]
        })
        .collect();
    let blocks = assign_blocks(&pts);
    let routes: Vec<Vec<usize>> = blocks
        .iter()
        .map(|m| {
            let local: Vec<(f64, f64)> = m.iter().map(|&i| (pts[i].0 as f64, pts[i].1 as f64)).collect();
            solve_block(&key_matrix(&local), m)
        })
        .collect();
    let route = join_block_routes(&routes);
    assert!(is_permutation(&route, pts.len()));
}

#[test]
fn rotate_to_depot_starts_at_zero() {
    assert_eq!(rotate_to_depot(vec![2, 0, 1, 2]), vec![0, 1, 2]);
    assert_eq!(rotate_to_depot(vec![0, 3, 1, 2, 0]), vec![0, 3, 1, 2]);
    assert_eq!(rotate_to_depot(vec![3, 1, 2, 0, 3]), vec![0, 3, 1, 2]);
}

#[test]
fn tour_legs_skip_the_leg_before_last() {
    let r = vec![4, 1, 2, 3, 0, 4];
    assert_eq!(tour_legs(&r, 4), vec![(4, 1), (1, 2), (2, 3), (0, 4)]);
    assert_eq!(tour_legs(&r, 0), vec![(4, 4)]);
    assert_eq!(tour_legs(&r, 1), vec![(1, 4)]);
}

#[test]
fn route_legs_close_the_tour() {
    let r = vec![2, 0, 1];
    // entry 2 -> leg leaving position 2: (r[2], r[0]); entry 0 -> (r[0], r[1]); entry 1 -> (r[1], r[2])
    assert_eq!(route_legs(&r, 3), vec![(1, 2), (2, 0), (0, 1)]);
    assert_eq!(route_legs(&Vec::new(), 0), Vec::<(usize, usize)>::new());
}

#[test]
fn page_size_is_at_least_one() {
    assert_eq!(effective_page_size(0), 1);
    assert_eq!(effective_page_size(-5), 1);
    assert_eq!(effective_page_size(20), 20);
}

#[test]
fn page_count_rounds_up() {
    assert_eq!(page_count(10, 3), 4);
    assert_eq!(page_count(9, 3), 3);
    assert_eq!(page_count(0, 5), 0);
    assert_eq!(page_count(1, 1), 1);
    assert_eq!(page_count(i64::MAX, 1), i64::MAX);
    assert_eq!(page_count(-7, 2), -2);
    assert_eq!(page_offset(3, 20), 60);
}

#[test]
fn pagination_result_counts_pages() {
    let p = PaginationResult::new(vec![TspSetForm { label: "a".to_string() }], 41, 2, 20);
    assert_eq!(p.items.len(), 1);
    assert_eq!(p.items[0].label, "a");
    assert_eq!(p.total_items, 41);
    assert_eq!(p.page, 2);
    assert_eq!(p.page_size, 20);
    assert_eq!(p.num_pages, 3);
}

#[test]
fn point_labels_unescape_all_rows_but_the_last() {
    let displayed = vec![
        "\"Depot\"".to_string(),
        "'North gate'".to_string(),
        "\"new\\nline\"".to_string(),
        "\"not read \\q".to_string(),
    ];
    let labels = tsp::labels::point_labels(&displayed).unwrap();
    assert_eq!(labels, vec!["Depot".to_string(), "North gate".to_string(), "new\nline".to_string()]);
}

#[test]
fn point_labels_refuse_an_invalid_escape() {
    let displayed = vec!["\"bad \\q escape\"".to_string(), "\"x\"".to_string()];
    assert_eq!(tsp::labels::point_labels(&displayed), None);
    let only = vec!["\"last row\"".to_string()];
    assert_eq!(tsp::labels::point_labels(&only), Some(Vec::new()));
}

#[test]
fn route_legs_of_rotated_and_reversed_tour() {
    let mut sorted = |mut v: Vec<(usize, usize)>| {
        v.sort();
        v
    };
    let r = vec![0, 3, 1, 4, 2];
    let base = sorted(route_legs(&r, 5));
    let rot: Vec<usize> = (0..5).map(|t| r[(t + 2) % 5]).collect();
    assert_eq!(sorted(route_legs(&rot, 5)), base);
    let rev: Vec<usize> = r.iter().rev().cloned().collect();
    let swapped: Vec<(usize, usize)> = route_legs(&rev, 5).into_iter().map(|(a, b)| (b, a)).collect();
    assert_eq!(sorted(swapped), base);
}
