//! K-Means (Lloyd's algorithm) over node positions.
//!
//! Coordinates are integer centimetres, so the early stop (largest centroid
//! shift under 1e-4 m) is reached exactly when no centroid moved.
use vstd::prelude::*;
use crate::node::{Node, Point, dist_sq, dist_sq_spec, MAX_COORD};
use crate::network::MAX_NODES;

verus! {

/// Iteration cap of Lloyd's algorithm.
pub const MAX_ITER: usize = 100;

/// The positions of a node list.
pub open spec fn positions_of(nodes: Seq<Node>) -> Seq<Point> {
    Seq::new(nodes.len(), |i: int| nodes[i].position)
}

/// Index of the nearest of the first `k` centroids to `p`; on equal
/// distances the lowest index wins.
pub open spec fn nearest_prefix(p: Point, cs: Seq<Point>, k: int) -> int
    decreases k,
{
    if k <= 1 {
        0
    } else {
        let b = nearest_prefix(p, cs, k - 1);
        if dist_sq_spec(p, cs[k - 1]) < dist_sq_spec(p, cs[b]) {
            k - 1
        } else {
            b
        }
    }
}

/// Index of the nearest centroid to `p` (lowest index on ties).
pub open spec fn nearest(p: Point, cs: Seq<Point>) -> int {
    nearest_prefix(p, cs, cs.len() as int)
}

/// The assignment of every position to its nearest centroid.
pub open spec fn assignment_for(ps: Seq<Point>, cs: Seq<Point>) -> Seq<usize> {
    Seq::new(ps.len(), |i: int| nearest(ps[i], cs) as usize)
}

/// Number of the first `n` positions assigned to cluster `c`.
pub open spec fn count_in(a: Seq<usize>, c: int, n: int) -> int
    decreases n,
{
    if n <= 0 {
        0
    } else {
        count_in(a, c, n - 1) + (if a[n - 1] == c { 1int } else { 0int })
    }
}

/// Sum of the x coordinates of the first `n` positions assigned to `c`.
pub open spec fn sum_x(ps: Seq<Point>, a: Seq<usize>, c: int, n: int) -> int
    decreases n,
{
    if n <= 0 {
        0
    } else {
        sum_x(ps, a, c, n - 1) + (if a[n - 1] == c { ps[n - 1].x as int } else { 0int })
    }
}

/// Sum of the y coordinates of the first `n` positions assigned to `c`.
pub open spec fn sum_y(ps: Seq<Point>, a: Seq<usize>, c: int, n: int) -> int
    decreases n,
{
    if n <= 0 {
        0
    } else {
        sum_y(ps, a, c, n - 1) + (if a[n - 1] == c { ps[n - 1].y as int } else { 0int })
    }
}

/// Centroid `c` after an update step: the mean (rounded down) of the
/// positions assigned to it, or unchanged when none is.
pub open spec fn updated_centroid(ps: Seq<Point>, a: Seq<usize>, cs: Seq<Point>, c: int) -> Point {
    let n = ps.len() as int;
    let k = count_in(a, c, n);
    if k > 0 {
        Point { x: (sum_x(ps, a, c, n) / k) as i64, y: (sum_y(ps, a, c, n) / k) as i64 }
    } else {
        cs[c]
    }
}

/// All centroids after an update step.
pub open spec fn updated(ps: Seq<Point>, a: Seq<usize>, cs: Seq<Point>) -> Seq<Point> {
    Seq::new(cs.len(), |c: int| updated_centroid(ps, a, cs, c))
}

/// One Lloyd iteration from centroids `cs` leaves them where they are.
pub open spec fn is_fixed_point(ps: Seq<Point>, cs: Seq<Point>) -> bool {
    updated(ps, assignment_for(ps, cs), cs) == cs
}

/// The mean (rounded down) of all positions.
pub open spec fn mean_of(ps: Seq<Point>) -> Point {
    let all = Seq::new(ps.len(), |i: int| 0usize);
    let n = ps.len() as int;
    Point { x: (sum_x(ps, all, 0, n) / n) as i64, y: (sum_y(ps, all, 0, n) / n) as i64 }
}

pub open spec fn all_in_bounds(ps: Seq<Point>) -> bool {
    forall|i: int| 0 <= i < ps.len() ==> (#[trigger] ps[i]).in_bounds()
}

proof fn lemma_nearest_prefix_range(p: Point, cs: Seq<Point>, k: int)
    requires
        1 <= k,
    ensures
        0 <= nearest_prefix(p, cs, k) < k,
    decreases k,
{
    if k > 1 {
        lemma_nearest_prefix_range(p, cs, k - 1);
    }
}

proof fn lemma_sums_bounded(ps: Seq<Point>, a: Seq<usize>, c: int, n: int)
    requires
        0 <= n <= ps.len(),
        n <= a.len(),
        all_in_bounds(ps),
    ensures
        0 <= count_in(a, c, n) <= n,
        0 <= sum_x(ps, a, c, n) <= count_in(a, c, n) * MAX_COORD,
        0 <= sum_y(ps, a, c, n) <= count_in(a, c, n) * MAX_COORD,
    decreases n,
{
    if n > 0 {
        lemma_sums_bounded(ps, a, c, n - 1);
        assert(ps[n - 1].in_bounds());
    }
}

proof fn lemma_mean_in_bounds(s: int, k: int)
    requires
        0 < k,
        0 <= s <= k * MAX_COORD,
    ensures
        0 <= s / k <= MAX_COORD,
{
    assert(0 <= s / k <= MAX_COORD) by (nonlinear_arith)
        requires 0 < k, 0 <= s <= k * 1_000_000;
}

proof fn lemma_updated_in_bounds(ps: Seq<Point>, a: Seq<usize>, cs: Seq<Point>)
    requires
        all_in_bounds(ps),
        all_in_bounds(cs),
        a.len() == ps.len(),
    ensures
        all_in_bounds(updated(ps, a, cs)),
{
    assert forall|c: int| 0 <= c < cs.len() implies (#[trigger] updated(ps, a, cs)[c]).in_bounds() by {
        let n = ps.len() as int;
        lemma_sums_bounded(ps, a, c, n);
        let k = count_in(a, c, n);
        if k > 0 {
            lemma_mean_in_bounds(sum_x(ps, a, c, n), k);
            lemma_mean_in_bounds(sum_y(ps, a, c, n), k);
        }
    }
}

/// The nearest centroid to `p` (lowest index on ties).
pub fn nearest_centroid(p: Point, cs: &Vec<Point>) -> (r: usize)
    requires
        p.in_bounds(),
        all_in_bounds(cs@),
        cs@.len() > 0,
    ensures
        r == nearest(p, cs@),
        r < cs@.len(),
{
    let mut best: usize = 0;
    let mut best_d: u64 = dist_sq(p, cs[0]);
    let mut j: usize = 1;
    while j < cs.len()
        invariant
            1 <= j <= cs@.len(),
            p.in_bounds(),
            all_in_bounds(cs@),
            best == nearest_prefix(p, cs@, j as int),
            best < j,
            best_d == dist_sq_spec(p, cs@[best as int]),
        decreases cs@.len() - j,
    {
        let d = dist_sq(p, cs[j]);
        if d < best_d {
            best = j;
            best_d = d;
        }
        j = j + 1;
    }
    best
}

/// Spatial clustering of node positions into `n_clusters` groups.
pub struct KMeans {
    /// Number of clusters (k).
    pub n_clusters: usize,
    /// Centroid positions, one per cluster, after `fit`.
    pub centroids: Vec<Point>,
    /// Cluster index of each node, after `fit`.
    pub clusters: Vec<usize>,
}

impl KMeans {
    /// An unfitted clustering of `n_clusters` groups.
    pub fn new(n_clusters: usize) -> (r: KMeans)
        ensures
            r.n_clusters == n_clusters,
            r.centroids@.len() == 0,
            r.clusters@.len() == 0,
    {
        KMeans { n_clusters, centroids: Vec::new(), clusters: Vec::new() }
    }

    /// Centroid positions.
    pub fn centroids(&self) -> (r: &Vec<Point>)
        ensures
            r@ == self.centroids@,
    {
        &self.centroids
    }

    /// Cluster index of each node.
    pub fn clusters(&self) -> (r: &Vec<usize>)
        ensures
            r@ == self.clusters@,
    {
        &self.clusters
    }
}

} // verus!

verus! {

/// With a single centroid every position goes to cluster 0, and one update
/// step puts the centroid at the mean of all positions.
pub proof fn lemma_single_cluster_is_mean(ps: Seq<Point>, cs: Seq<Point>)
    requires
        cs.len() == 1,
        ps.len() > 0,
    ensures
        forall|i: int| 0 <= i < ps.len() ==> #[trigger] assignment_for(ps, cs)[i] == 0,
        updated(ps, assignment_for(ps, cs), cs)[0] == mean_of(ps),
{
    let a = assignment_for(ps, cs);
    let all = Seq::new(ps.len(), |i: int| 0usize);
    assert(a =~= all);
    lemma_count_all(all, ps.len() as int);
}

proof fn lemma_count_all(a: Seq<usize>, n: int)
    requires
        0 <= n <= a.len(),
        forall|i: int| 0 <= i < a.len() ==> a[i] == 0,
    ensures
        count_in(a, 0, n) == n,
    decreases n,
{
    if n > 0 {
        lemma_count_all(a, n - 1);
    }
}

/// The nearest centroid of every node.
fn assign_all(wsn: &Vec<Node>, cs: &Vec<Point>) -> (r: Vec<usize>)
    requires
        all_in_bounds(positions_of(wsn@)),
        all_in_bounds(cs@),
        cs@.len() > 0,
    ensures
        r@ == assignment_for(positions_of(wsn@), cs@),
        forall|i: int| 0 <= i < r@.len() ==> r@[i] < cs@.len(),
{
    let ghost ps = positions_of(wsn@);
    let mut r: Vec<usize> = Vec::new();
    let mut i: usize = 0;
    while i < wsn.len()
        invariant
            i <= wsn@.len(),
            ps == positions_of(wsn@),
            all_in_bounds(ps),
            all_in_bounds(cs@),
            cs@.len() > 0,
            r@.len() == i,
            forall|j: int| 0 <= j < i ==> r@[j] == nearest(ps[j], cs@),
            forall|j: int| 0 <= j < i ==> r@[j] < cs@.len(),
        decreases wsn@.len() - i,
    {
        assert(ps[i as int] == wsn@[i as int].position);
        let c = nearest_centroid(wsn[i].position, cs);
        r.push(c);
        i = i + 1;
    }
    assert(r@ =~= assignment_for(ps, cs@));
    r
}

/// Whether two centroid lists are equal.
fn same_points(a: &Vec<Point>, b: &Vec<Point>) -> (r: bool)
    ensures
        r == (a@ == b@),
{
    if a.len() != b.len() {
        return false;
    }
    let mut i: usize = 0;
    while i < a.len()
        invariant
            a@.len() == b@.len(),
            i <= a@.len(),
            forall|j: int| 0 <= j < i ==> a@[j] == b@[j],
        decreases a@.len() - i,
    {
        if a[i].x != b[i].x || a[i].y != b[i].y {
            return false;
        }
        i = i + 1;
    }
    assert(a@ =~= b@);
    true
}

impl KMeans {
    /// Moves each centroid to the mean (rounded down) of the nodes assigned to
    /// it, leaving a centroid with no node where it is; returns the previous
    /// centroids.
    fn update_centroids(&mut self, wsn: &Vec<Node>) -> (prev: Vec<Point>)
        requires
            old(self).clusters@.len() == wsn@.len(),
            wsn@.len() <= MAX_NODES,
            all_in_bounds(positions_of(wsn@)),
            all_in_bounds(old(self).centroids@),
            forall|i: int| 0 <= i < wsn@.len() ==> old(self).clusters@[i] < old(self).centroids@.len(),
        ensures
            prev@ == old(self).centroids@,
            final(self).centroids@ == updated(positions_of(wsn@), old(self).clusters@, old(self).centroids@),
            final(self).clusters@ == old(self).clusters@,
            final(self).n_clusters == old(self).n_clusters,
            all_in_bounds(final(self).centroids@),
    {
        let ghost ps = positions_of(wsn@);
        let ghost a = self.clusters@;
        let k = self.centroids.len();
        let prev = self.centroids.clone();
        assert(prev@ =~= self.centroids@);
        let mut sx: Vec<i64> = vec![0i64; k];
        let mut sy: Vec<i64> = vec![0i64; k];
        let mut cnt: Vec<i64> = vec![0i64; k];
        let mut i: usize = 0;
        while i < wsn.len()
            invariant
                i <= wsn@.len(),
                wsn@.len() <= MAX_NODES,
                ps == positions_of(wsn@),
                a == self.clusters@,
                a.len() == wsn@.len(),
                all_in_bounds(ps),
                k == self.centroids@.len(),
                self.n_clusters == old(self).n_clusters,
                self.centroids@ == old(self).centroids@,
                forall|j: int| 0 <= j < wsn@.len() ==> a[j] < k,
                sx@.len() == k && sy@.len() == k && cnt@.len() == k,
                forall|c: int| 0 <= c < k ==> #[trigger] sx@[c] == sum_x(ps, a, c, i as int),
                forall|c: int| 0 <= c < k ==> #[trigger] sy@[c] == sum_y(ps, a, c, i as int),
                forall|c: int| 0 <= c < k ==> #[trigger] cnt@[c] == count_in(a, c, i as int),
            decreases wsn@.len() - i,
        {
            let c = self.clusters[i];
            proof {
                lemma_sums_bounded(ps, a, c as int, i as int + 1);
                assert(ps[i as int] == wsn@[i as int].position);
                assert(count_in(a, c as int, i as int + 1) * MAX_COORD <= 1_000_000 * 1_000_000) by (nonlinear_arith)
                    requires count_in(a, c as int, i as int + 1) <= 1_000_000;
            }
            let p = wsn[i].position;
            sx.set(c, sx[c] + p.x);
            sy.set(c, sy[c] + p.y);
            cnt.set(c, cnt[c] + 1);
            i = i + 1;
            assert forall|d: int| 0 <= d < k implies #[trigger] sx@[d] == sum_x(ps, a, d, i as int)
                && sy@[d] == sum_y(ps, a, d, i as int) && cnt@[d] == count_in(a, d, i as int) by {}
        }
        let mut c: usize = 0;
        while c < k
            invariant
                c <= k,
                ps == positions_of(wsn@),
                a.len() == ps.len(),
                all_in_bounds(ps),
                all_in_bounds(prev@),
                k == self.centroids@.len(),
                prev@.len() == k,
                self.n_clusters == old(self).n_clusters,
                self.clusters@ == a,
                sx@.len() == k && sy@.len() == k && cnt@.len() == k,
                forall|d: int| 0 <= d < k ==> #[trigger] sx@[d] == sum_x(ps, a, d, ps.len() as int),
                forall|d: int| 0 <= d < k ==> #[trigger] sy@[d] == sum_y(ps, a, d, ps.len() as int),
                forall|d: int| 0 <= d < k ==> #[trigger] cnt@[d] == count_in(a, d, ps.len() as int),
                forall|d: int| 0 <= d < c ==> #[trigger] self.centroids@[d] == updated_centroid(ps, a, prev@, d),
                forall|d: int| c <= d < k ==> #[trigger] self.centroids@[d] == prev@[d],
            decreases k - c,
        {
            if cnt[c] > 0 {
                proof {
                    lemma_sums_bounded(ps, a, c as int, ps.len() as int);
                }
                let np = Point { x: sx[c] / cnt[c], y: sy[c] / cnt[c] };
                self.centroids.set(c, np);
            }
            c = c + 1;
        }
        assert(self.centroids@ =~= updated(ps, a, prev@));
        proof {
            lemma_updated_in_bounds(ps, a, prev@);
        }
        prev
    }
}

} // verus!

verus! {

/// `a` and `cs` are what one Lloyd iteration produces from some centroids:
/// the nearest-centroid assignment and the centroids moved to its means.
pub open spec fn is_lloyd_step(ps: Seq<Point>, a: Seq<usize>, cs: Seq<Point>) -> bool {
    exists|prev: Seq<Point>|
        #![trigger assignment_for(ps, prev)]
        prev.len() == cs.len() && a == assignment_for(ps, prev) && cs == updated(ps, a, prev)
}

/// The positions of the seed nodes, in seed order.
pub open spec fn seed_points(nodes: Seq<Node>, seeds: Seq<usize>) -> Seq<Point> {
    Seq::new(seeds.len(), |j: int| nodes[seeds[j] as int].position)
}

/// What Lloyd's algorithm gives from the seed nodes `seeds` on `wsn` with `k`
/// clusters: centroids `cs` and assignment `a` after `iterations` iterations.
/// The last iteration was a Lloyd step; stopping before the cap means nothing
/// moved (a fixed point, each node at its nearest centroid); seeds that are
/// already a fixed point stop after one iteration; one cluster sits at the
/// mean with every node in it.
pub open spec fn seeded_fit(
    wsn: Seq<Node>,
    k: int,
    seeds: Seq<usize>,
    cs: Seq<Point>,
    a: Seq<usize>,
    iterations: int,
) -> bool {
    let ps = positions_of(wsn);
    &&& cs.len() == k
    &&& a.len() == wsn.len()
    &&& all_in_bounds(cs)
    &&& forall|i: int| 0 <= i < wsn.len() ==> #[trigger] a[i] < k
    &&& (k == 1 && wsn.len() > 0 ==> cs[0] == mean_of(ps) && forall|i: int|
        0 <= i < wsn.len() ==> #[trigger] a[i] == 0)
    &&& is_lloyd_step(ps, a, cs)
    &&& 1 <= iterations <= MAX_ITER
    &&& (iterations < MAX_ITER ==> is_fixed_point(ps, cs) && a == assignment_for(ps, cs))
    &&& (is_fixed_point(ps, seed_points(wsn, seeds)) ==> iterations == 1 && cs == seed_points(wsn, seeds))
}

/// `k` distinct node indices, each below `n`.
pub open spec fn distinct_seeds(seeds: Seq<usize>, k: int, n: int) -> bool {
    &&& seeds.len() == k
    &&& forall|j: int| 0 <= j < k ==> #[trigger] seeds[j] < n
    &&& forall|i: int, j: int| 0 <= i < j < k ==> seeds[i] != seeds[j]
}

/// `cs` and `a` are what Lloyd's algorithm gives on `wsn` with `k` clusters
/// from some `k` distinct seed nodes.
pub open spec fn fit_result(wsn: Seq<Node>, k: int, cs: Seq<Point>, a: Seq<usize>) -> bool {
    exists|seeds: Seq<usize>, iterations: int|
        #![trigger seeded_fit(wsn, k, seeds, cs, a, iterations)]
        distinct_seeds(seeds, k, wsn.len() as int) && seeded_fit(wsn, k, seeds, cs, a, iterations)
}

impl KMeans {
    /// The facts a finished fit always has: one centroid per cluster inside
    /// the area, one in-range cluster index per node, and for one cluster the
    /// centroid at the mean with every node in it.
    pub open spec fn fitted(&self, wsn: Seq<Node>) -> bool {
        let ps = positions_of(wsn);
        &&& self.centroids@.len() == self.n_clusters
        &&& self.clusters@.len() == wsn.len()
        &&& all_in_bounds(self.centroids@)
        &&& forall|i: int| 0 <= i < wsn.len() ==> #[trigger] self.clusters@[i] < self.n_clusters
        &&& (self.n_clusters == 1 && wsn.len() > 0 ==> {
            &&& self.centroids@[0] == mean_of(ps)
            &&& forall|i: int| 0 <= i < wsn.len() ==> #[trigger] self.clusters@[i] == 0
        })
    }

    /// Lloyd's algorithm from the given seed nodes: at most `MAX_ITER`
    /// iterations of assigning each node to its nearest centroid and moving
    /// each centroid to the mean of its nodes, stopping early once no centroid
    /// moves. Returns the number of iterations run.
    pub fn fit_from_seeds(&mut self, wsn: &Vec<Node>, seeds: &Vec<usize>) -> (iterations: usize)
        requires
            old(self).n_clusters >= 1,
            seeds@.len() == old(self).n_clusters,
            forall|j: int| 0 <= j < seeds@.len() ==> #[trigger] seeds@[j] < wsn@.len(),
            wsn@.len() <= MAX_NODES,
            all_in_bounds(positions_of(wsn@)),
        ensures
            final(self).n_clusters == old(self).n_clusters,
            final(self).fitted(wsn@),
            is_lloyd_step(positions_of(wsn@), final(self).clusters@, final(self).centroids@),
            seeded_fit(wsn@, old(self).n_clusters as int, seeds@, final(self).centroids@, final(self).clusters@, iterations as int),
            1 <= iterations <= MAX_ITER,
            iterations < MAX_ITER ==> {
                &&& is_fixed_point(positions_of(wsn@), final(self).centroids@)
                &&& final(self).clusters@ == assignment_for(positions_of(wsn@), final(self).centroids@)
            },
            is_fixed_point(positions_of(wsn@), seed_points(wsn@, seeds@)) ==> {
                &&& iterations == 1
                &&& final(self).centroids@ == seed_points(wsn@, seeds@)
            },
    {
        let ghost ps = positions_of(wsn@);
        let ghost seeds_pts = seed_points(wsn@, seeds@);
        let k = self.n_clusters;
        let mut init: Vec<Point> = Vec::new();
        let mut j: usize = 0;
        while j < seeds.len()
            invariant
                j <= seeds@.len(),
                ps == positions_of(wsn@),
                all_in_bounds(ps),
                forall|t: int| 0 <= t < seeds@.len() ==> #[trigger] seeds@[t] < wsn@.len(),
                init@.len() == j,
                seeds_pts == seed_points(wsn@, seeds@),
                forall|t: int| 0 <= t < j ==> #[trigger] init@[t] == seeds_pts[t],
            decreases seeds@.len() - j,
        {
            assert(ps[seeds@[j as int] as int] == wsn@[seeds@[j as int] as int].position);
            init.push(wsn[seeds[j]].position);
            j = j + 1;
        }
        assert(init@ =~= seeds_pts);
        assert forall|t: int| 0 <= t < seeds_pts.len() implies (#[trigger] seeds_pts[t]).in_bounds() by {
            assert(ps[seeds@[t] as int] == seeds_pts[t]);
        }
        self.centroids = init;
        self.clusters = vec![0usize; wsn.len()];
        let ghost mut prev_g: Seq<Point> = seeds_pts;
        let mut iterations: usize = 0;
        while iterations < MAX_ITER
            invariant_except_break
                iterations >= 1 && is_fixed_point(ps, seeds_pts) ==> false,
            invariant
                iterations <= MAX_ITER,
                self.n_clusters == k,
                k >= 1,
                ps == positions_of(wsn@),
                all_in_bounds(ps),
                wsn@.len() <= MAX_NODES,
                self.centroids@.len() == k,
                self.clusters@.len() == wsn@.len(),
                all_in_bounds(self.centroids@),
                iterations == 0 ==> self.centroids@ == seeds_pts,
                iterations == 1 ==> prev_g == seeds_pts,
                iterations >= 1 ==> {
                    &&& self.clusters@ == assignment_for(ps, prev_g)
                    &&& self.centroids@ == updated(ps, self.clusters@, prev_g)
                    &&& prev_g.len() == k
                },
            ensures
                iterations >= 1,
                self.clusters@ == assignment_for(ps, prev_g),
                self.centroids@ == updated(ps, self.clusters@, prev_g),
                prev_g.len() == k,
                iterations < MAX_ITER ==> self.centroids@ == prev_g,
                is_fixed_point(ps, seeds_pts) ==> iterations == 1,
                iterations == 1 ==> prev_g == seeds_pts,
            decreases MAX_ITER - iterations,
        {
            let assignment = assign_all(wsn, &self.centroids);
            self.clusters = assignment;
            let prev = self.update_centroids(wsn);
            proof {
                prev_g = prev@;
            }
            iterations = iterations + 1;
            if same_points(&prev, &self.centroids) {
                break;
            }
        }
        proof {
            let a = self.clusters@;
            assert forall|i: int| 0 <= i < wsn@.len() implies #[trigger] self.clusters@[i] < self.n_clusters by {
                lemma_nearest_prefix_range(ps[i], prev_g, k as int);
            }
            if k == 1 && wsn@.len() > 0 {
                lemma_single_cluster_is_mean(ps, prev_g);
            }
            assert(updated(ps, self.clusters@, prev_g).len() == k);
            assert(is_lloyd_step(ps, self.clusters@, self.centroids@));
        }
        iterations
    }

    /// Lloyd's algorithm seeded with `n_clusters` distinct nodes drawn
    /// uniformly at random.
    pub fn fit(&mut self, wsn: &Vec<Node>)
        requires
            1 <= old(self).n_clusters <= wsn@.len(),
            wsn@.len() <= MAX_NODES,
            all_in_bounds(positions_of(wsn@)),
        ensures
            final(self).n_clusters == old(self).n_clusters,
            final(self).fitted(wsn@),
            is_lloyd_step(positions_of(wsn@), final(self).clusters@, final(self).centroids@),
            fit_result(wsn@, old(self).n_clusters as int, final(self).centroids@, final(self).clusters@),
    {
        let seeds = crate::random::sample_indices(wsn.len(), self.n_clusters);
        let iterations = self.fit_from_seeds(wsn, &seeds);
        assert(distinct_seeds(seeds@, old(self).n_clusters as int, wsn@.len() as int));
        assert(seeded_fit(wsn@, old(self).n_clusters as int, seeds@, self.centroids@, self.clusters@, iterations as int));
    }
}

} // verus!
