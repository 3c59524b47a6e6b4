//! Route-building logic of a travelling-salesman solver: tours as permutations
//! of city indices, nearest-neighbour construction, Held-Karp route recovery,
//! 2-opt segment reversal, block decomposition of a map, depot rotation and
//! pagination arithmetic.

pub mod tour;
pub mod greedy;
pub mod held_karp;
pub mod blocks;
pub mod two_opt;
pub mod depot;
pub mod pagination;
pub mod labels;
