//! Sensor node state and planar geometry on integer coordinates.
use vstd::prelude::*;
use crate::radio::MAX_DIST_SQ;

verus! {

/// Largest coordinate a position may have (cm).
pub const MAX_COORD: i64 = 1_000_000;

/// Initial energy of every node (pJ), i.e. two joules.
pub const INITIAL_NODE_ENERGY_PJ: i128 = 2_000_000_000_000;

/// Base station position (cm): centre of the default 500 m × 500 m area.
pub const BASE_STATION_X: i64 = 25_000;

/// Base station position (cm): centre of the default 500 m × 500 m area.
pub const BASE_STATION_Y: i64 = 25_000;

/// Default deployment area width (cm): 500 m.
pub const DEPLOYMENT_AREA_WIDTH_CM: i64 = 50_000;

/// Default deployment area height (cm): 500 m.
pub const DEPLOYMENT_AREA_HEIGHT_CM: i64 = 50_000;

/// A point of the deployment area, in centimetres.
#[derive(Clone, Copy, Debug, PartialEq, Eq, Structural)]
pub struct Point {
    pub x: i64,
    pub y: i64,
}

impl Point {
    /// Whether both coordinates lie in `[0, MAX_COORD]`.
    pub open spec fn in_bounds(self) -> bool {
        0 <= self.x <= MAX_COORD && 0 <= self.y <= MAX_COORD
    }
}

/// Squared Euclidean distance between two points.
pub open spec fn dist_sq_spec(a: Point, b: Point) -> int {
    (a.x - b.x) * (a.x - b.x) + (a.y - b.y) * (a.y - b.y)
}

/// The base station as a point.
pub open spec fn base_station() -> Point {
    Point { x: BASE_STATION_X, y: BASE_STATION_Y }
}

/// Two in-bounds points are at most `MAX_DIST_SQ` apart, squared.
pub proof fn lemma_dist_sq_bounded(a: Point, b: Point)
    requires
        a.in_bounds(),
        b.in_bounds(),
    ensures
        0 <= dist_sq_spec(a, b) <= MAX_DIST_SQ,
{
    let dx = a.x - b.x;
    let dy = a.y - b.y;
    assert(0 <= dx * dx <= 1_000_000 * 1_000_000) by (nonlinear_arith)
        requires -1_000_000 <= dx <= 1_000_000;
    assert(0 <= dy * dy <= 1_000_000 * 1_000_000) by (nonlinear_arith)
        requires -1_000_000 <= dy <= 1_000_000;
}

/// Squared Euclidean distance between two in-bounds points (cm²).
pub fn dist_sq(a: Point, b: Point) -> (r: u64)
    requires
        a.in_bounds(),
        b.in_bounds(),
    ensures
        r == dist_sq_spec(a, b),
        r <= MAX_DIST_SQ,
{
    let dx: i64 = a.x - b.x;
    let dy: i64 = a.y - b.y;
    assert(0 <= dx * dx <= 1_000_000 * 1_000_000) by (nonlinear_arith)
        requires -1_000_000 <= dx <= 1_000_000;
    assert(0 <= dy * dy <= 1_000_000 * 1_000_000) by (nonlinear_arith)
        requires -1_000_000 <= dy <= 1_000_000;
    ((dx * dx) + (dy * dy)) as u64
}

/// Whether `r` is the integer square root (floor) of `n`.
pub open spec fn is_isqrt(n: int, r: int) -> bool {
    0 <= r && r * r <= n < (r + 1) * (r + 1)
}

/// The integer square root (floor) of `n`.
pub open spec fn isqrt_spec(n: int) -> int {
    choose|r: int| is_isqrt(n, r)
}

proof fn lemma_isqrt_unique(n: int, a: int, b: int)
    requires
        is_isqrt(n, a),
        is_isqrt(n, b),
    ensures
        a == b,
{
    if a < b {
        assert((a + 1) * (a + 1) <= b * b) by (nonlinear_arith)
            requires 0 <= a + 1 <= b;
    } else if b < a {
        assert((b + 1) * (b + 1) <= a * a) by (nonlinear_arith)
            requires 0 <= b + 1 <= a;
    }
}

/// Floor of the square root of `n`.
pub fn isqrt(n: u64) -> (r: u64)
    requires
        n <= MAX_DIST_SQ,
    ensures
        is_isqrt(n as int, r as int),
        r == isqrt_spec(n as int),
        r <= 3_000_000,
{
    let mut lo: u64 = 0;
    let mut hi: u64 = 3_000_000;
    assert(n < hi * hi) by (nonlinear_arith)
        requires n <= 8_000_000_000_000, hi == 3_000_000;
    while lo + 1 < hi
        invariant
            lo < hi <= 3_000_000,
            lo * lo <= n < hi * hi,
        decreases hi - lo,
    {
        let mid: u64 = lo + (hi - lo) / 2;
        assert(mid * mid <= 3_000_000 * 3_000_000) by (nonlinear_arith)
            requires mid <= 3_000_000;
        if mid * mid <= n {
            lo = mid;
        } else {
            hi = mid;
        }
    }
    assert(lo + 1 == hi);
    proof {
        let w = isqrt_spec(n as int);
        assert(is_isqrt(n as int, lo as int));
        assert(is_isqrt(n as int, w));
        lemma_isqrt_unique(n as int, lo as int, w);
    }
    lo
}

/// One sensor node.
///
/// `cluster_head_id` is `None` for a cluster head or an unassigned node;
/// `cluster_member_ids` is non-empty only on a node that heads a cluster this round.
#[derive(Clone, Debug)]
pub struct Node {
    /// Stable identifier: the node's index in the network.
    pub id: usize,
    /// Position (cm), fixed at creation.
    pub position: Point,
    /// Remaining energy (pJ); may fall below zero during the round it dies in.
    pub remaining_energy_pj: i128,
    pub is_alive: bool,
    pub is_cluster_head: bool,
    /// Rotation flag of the election protocol.
    pub is_eligible_for_ch: bool,
    /// Squared distance to the base station (cm²), fixed at creation.
    pub distance_sq_to_base_station: u64,
    pub cluster_head_id: Option<usize>,
    pub cluster_member_ids: Vec<usize>,
}

impl Node {
    /// The state of a freshly deployed node.
    pub open spec fn is_fresh(self, id: usize, position: Point) -> bool {
        &&& self.id == id
        &&& self.position == position
        &&& self.remaining_energy_pj == INITIAL_NODE_ENERGY_PJ
        &&& self.is_alive
        &&& !self.is_cluster_head
        &&& self.is_eligible_for_ch
        &&& self.distance_sq_to_base_station == dist_sq_spec(position, base_station())
        &&& self.cluster_head_id is None
        &&& self.cluster_member_ids@.len() == 0
    }

    /// Creates a node with full energy, alive, eligible and not a cluster head,
    /// with its distance to the base station computed once.
    pub fn new(id: usize, position: Point) -> (r: Node)
        requires
            position.in_bounds(),
        ensures
            r.is_fresh(id, position),
    {
        let bs = Point { x: BASE_STATION_X, y: BASE_STATION_Y };
        Node {
            id,
            position,
            remaining_energy_pj: INITIAL_NODE_ENERGY_PJ,
            is_alive: true,
            is_cluster_head: false,
            is_eligible_for_ch: true,
            distance_sq_to_base_station: dist_sq(position, bs),
            cluster_head_id: None,
            cluster_member_ids: Vec::new(),
        }
    }
}

} // verus!

verus! {

impl Node {
    /// Deploys one fresh node per given position; node `i` gets id `i`.
    pub fn from_positions(positions: &Vec<Point>) -> (r: Vec<Node>)
        requires
            forall|i: int| 0 <= i < positions@.len() ==> (#[trigger] positions@[i]).in_bounds(),
        ensures
            r@.len() == positions@.len(),
            forall|i: int| 0 <= i < r@.len() ==> (#[trigger] r@[i]).is_fresh(i as usize, positions@[i]),
    {
        let mut r: Vec<Node> = Vec::new();
        let mut i: usize = 0;
        while i < positions.len()
            invariant
                i <= positions@.len(),
                r@.len() == i,
                forall|j: int| 0 <= j < positions@.len() ==> (#[trigger] positions@[j]).in_bounds(),
                forall|j: int| 0 <= j < i ==> (#[trigger] r@[j]).is_fresh(j as usize, positions@[j]),
            decreases positions@.len() - i,
        {
            r.push(Node::new(i, positions[i]));
            i = i + 1;
        }
        r
    }

    /// Deploys `n_nodes` fresh nodes at uniformly random positions with
    /// coordinates in `[100, width)` × `[100, height)` (one metre from the edges).
    pub fn create_wsn(width: i64, height: i64, n_nodes: usize) -> (r: Vec<Node>)
        requires
            100 < width <= MAX_COORD,
            100 < height <= MAX_COORD,
        ensures
            r@.len() == n_nodes,
            forall|i: int| 0 <= i < r@.len() ==> {
                &&& (#[trigger] r@[i]).is_fresh(i as usize, r@[i].position)
                &&& 100 <= r@[i].position.x < width
                &&& 100 <= r@[i].position.y < height
            },
    {
        let mut positions: Vec<Point> = Vec::new();
        let mut i: usize = 0;
        while i < n_nodes
            invariant
                i <= n_nodes,
                positions@.len() == i,
                100 < width <= MAX_COORD,
                100 < height <= MAX_COORD,
                forall|j: int| 0 <= j < i ==> {
                    &&& 100 <= (#[trigger] positions@[j]).x < width
                    &&& 100 <= positions@[j].y < height
                },
            decreases n_nodes - i,
        {
            let x = crate::random::draw_in_range(100, width);
            let y = crate::random::draw_in_range(100, height);
            positions.push(Point { x, y });
            i = i + 1;
        }
        Node::from_positions(&positions)
    }
}

} // verus!
