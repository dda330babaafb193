//! Zone-based cluster routing: K-Means clusters, one head per cluster chosen
//! by residual energy and centrality, and far-zone heads that relay through
//! the nearest near-zone head when that is closer than the base station.
use vstd::prelude::*;
use crate::node::{Node, Point, dist_sq, dist_sq_spec, isqrt, isqrt_spec, INITIAL_NODE_ENERGY_PJ, MAX_COORD};
use crate::network::{nearest_listed_node, per_packet_spec, nearest_listed, direct_head_cost, in_prefix, lemma_nearest_listed_in, lemma_nearest_listed_frame, MAX_NODES, CHARGE_MAX, nodes_wf, node_wf, same_frame, charge, with_energy, begin_round, begins_round, round_step, lemma_count_alive_same_flags};
use crate::simulator::{Simulator, Protocol};
use crate::clustering::{KMeans, positions_of, fit_result};
use crate::radio::lemma_transmit_bounds;
use crate::radio::{transmit_spec, transmit_energy, receive_spec, aggregation_spec, receive_energy, aggregation_energy, DATA_PACKET_SIZE_BITS};
use crate::radio::FS_MULTIPATH_THRESHOLD_SQ;
use crate::clustering::all_in_bounds;

verus! {

/// Largest diagonal normalizer accepted (cm).
pub const MAX_DIAGONAL_CM: u64 = 2_000_000;

/// A node's fitness as cluster head of the cluster with centroid `c`:
/// `energy / E0 - distance_to_centroid / diagonal`, scaled by `E0 * diagonal`
/// (the distance rounded down to whole centimetres).
pub open spec fn score_spec(n: Node, c: Point, diagonal: int) -> int {
    n.remaining_energy_pj * diagonal - isqrt_spec(dist_sq_spec(n.position, c)) * INITIAL_NODE_ENERGY_PJ
}

/// The head of cluster `c` among the first `m` nodes: the first alive node
/// of the cluster whose score no later node of it strictly beats.
pub open spec fn best_prefix(
    nodes: Seq<Node>,
    cs: Seq<Point>,
    a: Seq<usize>,
    diagonal: int,
    c: int,
    m: int,
) -> Option<usize>
    decreases m,
{
    if m <= 0 {
        None
    } else {
        let b = best_prefix(nodes, cs, a, diagonal, c, m - 1);
        let j = m - 1;
        if a[j] == c && nodes[j].is_alive && (b is None || score_spec(nodes[j], cs[c], diagonal)
            > score_spec(nodes[b->0 as int], cs[c], diagonal)) {
            Some(j as usize)
        } else {
            b
        }
    }
}

/// The selected head of every cluster.
pub open spec fn selected_heads(nodes: Seq<Node>, cs: Seq<Point>, a: Seq<usize>, diagonal: int) -> Seq<Option<usize>> {
    Seq::new(cs.len(), |c: int| best_prefix(nodes, cs, a, diagonal, c, nodes.len() as int))
}

proof fn lemma_best_prefix_facts(nodes: Seq<Node>, cs: Seq<Point>, a: Seq<usize>, diagonal: int, c: int, m: int)
    requires
        0 <= m <= nodes.len(),
        m <= a.len(),
        nodes.len() <= MAX_NODES,
    ensures
        best_prefix(nodes, cs, a, diagonal, c, m) matches Some(j) ==> {
            &&& j < m
            &&& a[j as int] == c
            &&& nodes[j as int].is_alive
        },
    decreases m,
{
    if m > 0 {
        lemma_best_prefix_facts(nodes, cs, a, diagonal, c, m - 1);
    }
}

/// A scored cluster's head is at least as fit as every alive node of the
/// cluster, and strictly fitter than every one scanned before it: of two
/// equally fit candidates the first one scanned is chosen.
pub proof fn lemma_head_is_first_best(
    nodes: Seq<Node>,
    cs: Seq<Point>,
    a: Seq<usize>,
    diagonal: int,
    c: int,
    m: int,
    i: int,
)
    requires
        0 <= m <= nodes.len(),
        m <= a.len(),
        nodes.len() <= MAX_NODES,
        0 <= i < m,
        a[i] == c,
        nodes[i].is_alive,
    ensures
        best_prefix(nodes, cs, a, diagonal, c, m) matches Some(j) && {
            &&& score_spec(nodes[i], cs[c], diagonal) <= score_spec(nodes[j as int], cs[c], diagonal)
            &&& (i < j ==> score_spec(nodes[i], cs[c], diagonal) < score_spec(nodes[j as int], cs[c], diagonal))
        },
    decreases m,
{
    lemma_best_prefix_facts(nodes, cs, a, diagonal, c, m - 1);
    if i < m - 1 {
        lemma_head_is_first_best(nodes, cs, a, diagonal, c, m - 1, i);
    }
}

/// Picks the head of each cluster: for cluster `c` the alive node of the
/// cluster with the strictly highest score, the first one scanned on ties,
/// or `None` when the cluster has no alive node.
pub fn select_cluster_heads(
    nodes: &Vec<Node>,
    centroids: &Vec<Point>,
    clusters: &Vec<usize>,
    diagonal: u64,
) -> (r: Vec<Option<usize>>)
    requires
        clusters@.len() == nodes@.len(),
        nodes@.len() <= MAX_NODES,
        forall|i: int| 0 <= i < clusters@.len() ==> #[trigger] clusters@[i] < centroids@.len(),
        all_in_bounds(centroids@),
        forall|i: int| 0 <= i < nodes@.len() ==> (#[trigger] nodes@[i]).position.in_bounds(),
        forall|i: int| 0 <= i < nodes@.len() && (#[trigger] nodes@[i]).is_alive ==> 0
            < nodes@[i].remaining_energy_pj <= INITIAL_NODE_ENERGY_PJ,
        0 < diagonal <= MAX_DIAGONAL_CM,
    ensures
        r@ == selected_heads(nodes@, centroids@, clusters@, diagonal as int),
{
    let k = centroids.len();
    let ghost d = diagonal as int;
    let mut sel: Vec<Option<usize>> = vec![None; k];
    let mut best: Vec<i128> = vec![0i128; k];
    let mut i: usize = 0;
    while i < nodes.len()
        invariant
            i <= nodes@.len(),
            k == centroids@.len(),
            d == diagonal as int,
            0 < diagonal <= MAX_DIAGONAL_CM,
            clusters@.len() == nodes@.len(),
            forall|t: int| 0 <= t < clusters@.len() ==> #[trigger] clusters@[t] < k,
            all_in_bounds(centroids@),
            forall|t: int| 0 <= t < nodes@.len() ==> (#[trigger] nodes@[t]).position.in_bounds(),
            forall|t: int| 0 <= t < nodes@.len() && (#[trigger] nodes@[t]).is_alive ==> 0
                < nodes@[t].remaining_energy_pj <= INITIAL_NODE_ENERGY_PJ,
            sel@.len() == k,
            best@.len() == k,
            forall|c: int| 0 <= c < k ==> #[trigger] sel@[c] == best_prefix(nodes@, centroids@, clusters@, d, c, i as int),
            forall|c: int| 0 <= c < k ==> (#[trigger] sel@[c] matches Some(j) ==> best@[c] == score_spec(nodes@[j as int], centroids@[c], d)),
        decreases nodes@.len() - i,
    {
        let c = clusters[i];
        if nodes[i].is_alive {
            let e = nodes[i].remaining_energy_pj;
            let ds = dist_sq(nodes[i].position, centroids[c]);
            let dist = isqrt(ds) as i128;
            let diag = diagonal as i128;
            assert(0 < e * diag <= 2_000_000_000_000 * 2_000_000) by (nonlinear_arith)
                requires 0 < e <= 2_000_000_000_000, 0 < diag <= 2_000_000;
            assert(0 <= dist * 2_000_000_000_000 <= 3_000_000 * 2_000_000_000_000) by (nonlinear_arith)
                requires 0 <= dist <= 3_000_000;
            let score: i128 = e * diag - dist * INITIAL_NODE_ENERGY_PJ;
            let better = match sel[c] {
                None => true,
                Some(_) => score > best[c],
            };
            if better {
                sel.set(c, Some(i));
                best.set(c, score);
            }
        }
        i = i + 1;
        assert forall|c2: int| 0 <= c2 < k implies #[trigger] sel@[c2] == best_prefix(nodes@, centroids@, clusters@, d, c2, i as int) by {}
    }
    assert(sel@ =~= selected_heads(nodes@, centroids@, clusters@, d));
    sel
}

} // verus!

verus! {

/// Whether a head lies in the near zone: within the free-space / multipath
/// threshold of the base station (inclusive).
pub open spec fn is_near(n: Node) -> bool {
    n.distance_sq_to_base_station <= FS_MULTIPATH_THRESHOLD_SQ
}

/// The heads of the first `m` clusters that fall in the near zone (`near`)
/// or the far zone (`!near`), in cluster order.
pub open spec fn zone_prefix(nodes: Seq<Node>, sel: Seq<Option<usize>>, near: bool, m: int) -> Seq<usize>
    decreases m,
{
    if m <= 0 {
        seq![]
    } else {
        let prev = zone_prefix(nodes, sel, near, m - 1);
        match sel[m - 1] {
            Some(j) => if is_near(nodes[j as int]) == near {
                prev.push(j)
            } else {
                prev
            },
            None => prev,
        }
    }
}

/// Whether node `j` heads some cluster among the first `m`.
pub open spec fn selected_within(sel: Seq<Option<usize>>, j: int, m: int) -> bool {
    exists|c: int| 0 <= c < m && #[trigger] sel[c] is Some && sel[c]->0 == j
}

/// `n` flagged as a cluster head.
pub open spec fn as_head(n: Node) -> Node {
    Node { is_cluster_head: true, ..n }
}

/// Protocol state of the zone-based variant.
pub struct Zcr {
    /// Number of cluster heads asked for in the current round.
    pub num_cluster_heads: usize,
    /// Cluster-head probability in parts per million, in `1..=1_000_000`.
    pub cluster_head_probability_ppm: u32,
    /// Heads of this round beyond the threshold distance of the base station.
    pub far_zone_heads: Vec<usize>,
    /// Heads of this round within the threshold distance of the base station.
    pub near_zone_heads: Vec<usize>,
    /// Normalizer of the centroid distance in the head score (cm).
    pub diagonal_cm: u64,
}

impl Zcr {
    /// Puts each selected head in the near or far bucket (in cluster order)
    /// and flags it as a cluster head.
    pub fn assign_zones(&mut self, selected: &Vec<Option<usize>>, nodes: &mut Vec<Node>)
        requires
            forall|c: int| 0 <= c < selected@.len() ==> (#[trigger] selected@[c] matches Some(j) ==> j < old(nodes)@.len()),
        ensures
            final(self).num_cluster_heads == old(self).num_cluster_heads,
            final(self).cluster_head_probability_ppm == old(self).cluster_head_probability_ppm,
            final(self).diagonal_cm == old(self).diagonal_cm,
            final(self).near_zone_heads@ == zone_prefix(old(nodes)@, selected@, true, selected@.len() as int),
            final(self).far_zone_heads@ == zone_prefix(old(nodes)@, selected@, false, selected@.len() as int),
            final(nodes)@.len() == old(nodes)@.len(),
            forall|j: int|
                0 <= j < old(nodes)@.len() ==> #[trigger] final(nodes)@[j] == if selected_within(
                    selected@,
                    j,
                    selected@.len() as int,
                ) {
                    as_head(old(nodes)@[j])
                } else {
                    old(nodes)@[j]
                },
    {
        let ghost start = nodes@;
        self.far_zone_heads.clear();
        self.near_zone_heads.clear();
        let mut c: usize = 0;
        while c < selected.len()
            invariant
                c <= selected@.len(),
                nodes@.len() == start.len(),
                forall|d: int| 0 <= d < selected@.len() ==> (#[trigger] selected@[d] matches Some(j) ==> j < start.len()),
                self.num_cluster_heads == old(self).num_cluster_heads,
                self.cluster_head_probability_ppm == old(self).cluster_head_probability_ppm,
                self.diagonal_cm == old(self).diagonal_cm,
                self.near_zone_heads@ == zone_prefix(start, selected@, true, c as int),
                self.far_zone_heads@ == zone_prefix(start, selected@, false, c as int),
                forall|j: int|
                    0 <= j < start.len() ==> #[trigger] nodes@[j] == if selected_within(selected@, j, c as int) {
                        as_head(start[j])
                    } else {
                        start[j]
                    },
            decreases selected@.len() - c,
        {
            let ghost before = nodes@;
            match selected[c] {
                Some(h) => {
                    if nodes[h].distance_sq_to_base_station <= FS_MULTIPATH_THRESHOLD_SQ {
                        self.near_zone_heads.push(h);
                    } else {
                        self.far_zone_heads.push(h);
                    }
                    nodes[h].is_cluster_head = true;
                    assert(nodes@ =~= before.update(h as int, as_head(before[h as int])));
                },
                None => {},
            }
            proof {
                assert forall|j: int| 0 <= j < start.len() implies #[trigger] nodes@[j] == if selected_within(
                    selected@,
                    j,
                    c as int + 1,
                ) {
                    as_head(start[j])
                } else {
                    start[j]
                } by {
                    if selected_within(selected@, j, c as int) {
                        let w = choose|d: int| 0 <= d < c && #[trigger] selected@[d] is Some && selected@[d]->0 == j;
                        assert(0 <= w < c + 1 && selected@[w] is Some && selected@[w]->0 == j);
                    }
                    if selected@[c as int] is Some && selected@[c as int]->0 == j {
                        assert(selected_within(selected@, j, c as int + 1));
                    }
                    if selected_within(selected@, j, c as int + 1) && !selected_within(selected@, j, c as int) {
                        let w = choose|d: int| 0 <= d < c + 1 && #[trigger] selected@[d] is Some && selected@[d]->0 == j;
                        assert(w == c);
                    }
                }
            }
            c = c + 1;
        }
    }
}

} // verus!

verus! {

/// Whether node `j` joins its cluster's head this round: it is alive, not a
/// head itself, and its cluster has a head.
pub open spec fn joins(nodes: Seq<Node>, sel: Seq<Option<usize>>, a: Seq<usize>, j: int) -> bool {
    nodes[j].is_alive && !nodes[j].is_cluster_head && sel[a[j] as int] is Some
}

/// The head of node `j`'s cluster.
pub open spec fn head_of(sel: Seq<Option<usize>>, a: Seq<usize>, j: int) -> usize {
    sel[a[j] as int]->0
}

/// The nodes among the first `m` that join head `h`, in index order.
pub open spec fn joined_prefix(nodes: Seq<Node>, sel: Seq<Option<usize>>, a: Seq<usize>, h: int, m: int) -> Seq<usize>
    decreases m,
{
    if m <= 0 {
        seq![]
    } else {
        let prev = joined_prefix(nodes, sel, a, h, m - 1);
        if joins(nodes, sel, a, m - 1) && head_of(sel, a, m - 1) == h {
            prev.push((m - 1) as usize)
        } else {
            prev
        }
    }
}

/// Node `t` after cluster formation among the first `m` nodes (`o` before,
/// `n` after): a joining node records its head and pays for sending its
/// packet there; each node's member list gains the nodes that joined it.
pub open spec fn formed(nodes: Seq<Node>, sel: Seq<Option<usize>>, a: Seq<usize>, t: int, m: int, n: Node) -> bool {
    let o = nodes[t];
    let joined = t < m && joins(nodes, sel, a, t);
    let h = head_of(sel, a, t);
    &&& same_frame(o, n)
    &&& n.is_alive == o.is_alive
    &&& n.is_cluster_head == o.is_cluster_head
    &&& n.is_eligible_for_ch == o.is_eligible_for_ch
    &&& n.cluster_head_id == if joined { Some(h) } else { o.cluster_head_id }
    &&& n.remaining_energy_pj == if joined {
        o.remaining_energy_pj - transmit_spec(
            DATA_PACKET_SIZE_BITS as int,
            dist_sq_spec(o.position, nodes[h as int].position),
        )
    } else {
        o.remaining_energy_pj as int
    }
    &&& n.cluster_member_ids@ == o.cluster_member_ids@ + joined_prefix(nodes, sel, a, t, m)
}

proof fn lemma_joined_prefix_len(nodes: Seq<Node>, sel: Seq<Option<usize>>, a: Seq<usize>, h: int, m: int)
    requires
        0 <= m,
    ensures
        joined_prefix(nodes, sel, a, h, m).len() <= m,
    decreases m,
{
    if m > 0 {
        lemma_joined_prefix_len(nodes, sel, a, h, m - 1);
    }
}

impl Zcr {
    /// Cluster formation: every alive node that is not a head joins the head
    /// of its own cluster, if that cluster has one, records it, registers with
    /// it, and pays the transmission of one packet to it.
    pub fn form_clusters(selected: &Vec<Option<usize>>, nodes: &mut Vec<Node>, cluster_assignments: &Vec<usize>)
        requires
            cluster_assignments@.len() == old(nodes)@.len(),
            nodes_wf(old(nodes)@),
            forall|i: int| 0 <= i < cluster_assignments@.len() ==> #[trigger] cluster_assignments@[i] < selected@.len(),
            forall|c: int|
                0 <= c < selected@.len() ==> (#[trigger] selected@[c] matches Some(h) ==> h < old(nodes)@.len()
                    && old(nodes)@[h as int].is_cluster_head),
        ensures
            final(nodes)@.len() == old(nodes)@.len(),
            forall|t: int|
                0 <= t < old(nodes)@.len() ==> formed(
                    old(nodes)@,
                    selected@,
                    cluster_assignments@,
                    t,
                    old(nodes)@.len() as int,
                    #[trigger] final(nodes)@[t],
                ),
    {
        let ghost start = nodes@;
        let ghost sel = selected@;
        let ghost a = cluster_assignments@;
        let mut i: usize = 0;
        while i < cluster_assignments.len()
            invariant
                i <= start.len(),
                nodes@.len() == start.len(),
                sel == selected@,
                a == cluster_assignments@,
                a.len() == start.len(),
                nodes_wf(start),
                forall|t: int| 0 <= t < a.len() ==> #[trigger] a[t] < sel.len(),
                forall|c: int|
                    0 <= c < sel.len() ==> (#[trigger] sel[c] matches Some(h) ==> h < start.len()
                        && start[h as int].is_cluster_head),
                forall|t: int| 0 <= t < start.len() ==> formed(start, sel, a, t, i as int, #[trigger] nodes@[t]),
            decreases start.len() - i,
        {
            assert(formed(start, sel, a, i as int, i as int, nodes@[i as int]));
            let cluster_idx = cluster_assignments[i];
            if nodes[i].is_alive && !nodes[i].is_cluster_head {
                match selected[cluster_idx] {
                    Some(h) => {
                        assert(formed(start, sel, a, h as int, i as int, nodes@[h as int]));
                        assert(h != i);
                        let ghost before = nodes@;
                        nodes[i].cluster_head_id = Some(h);
                        nodes[h].cluster_member_ids.push(i);
                        proof {
                            crate::node::lemma_dist_sq_bounded(start[i as int].position, start[h as int].position);
                            assert(node_wf(start[i as int], i as int));
                            assert(node_wf(start[h as int], h as int));
                        }
                        let d = dist_sq(nodes[i].position, nodes[h].position);
                        let cost = transmit_energy(DATA_PACKET_SIZE_BITS, d);
                        charge(nodes, i, cost);
                        proof {
                            assert forall|t: int| 0 <= t < start.len() implies formed(
                                start,
                                sel,
                                a,
                                t,
                                i as int + 1,
                                #[trigger] nodes@[t],
                            ) by {
                                assert(formed(start, sel, a, t, i as int, before[t]));
                                if t == h as int {
                                    assert(joined_prefix(start, sel, a, t, i as int + 1) =~= joined_prefix(
                                        start,
                                        sel,
                                        a,
                                        t,
                                        i as int,
                                    ).push(i));
                                }
                            }
                        }
                    },
                    None => {
                        proof {
                            assert forall|t: int| 0 <= t < start.len() implies formed(
                                start,
                                sel,
                                a,
                                t,
                                i as int + 1,
                                #[trigger] nodes@[t],
                            ) by {}
                        }
                    },
                }
            } else {
                proof {
                    assert forall|t: int| 0 <= t < start.len() implies formed(
                        start,
                        sel,
                        a,
                        t,
                        i as int + 1,
                        #[trigger] nodes@[t],
                    ) by {}
                }
            }
            i = i + 1;
        }
    }
}

} // verus!

verus! {

/// Where far-zone head `f` relays: the nearest near-zone head, when one
/// exists and is strictly closer than the base station; otherwise `None`
/// (direct transmission).
pub open spec fn relay_target(nodes: Seq<Node>, f: int, near: Seq<usize>) -> Option<usize> {
    match nearest_listed(nodes, f, near, near.len() as int) {
        Some(t) => if dist_sq_spec(nodes[f].position, nodes[t as int].position)
            < nodes[f].distance_sq_to_base_station {
            Some(t)
        } else {
            None
        },
        None => None,
    }
}

/// What far-zone head `f` spends: its members' packets, then one
/// transmission to its relay or to the base station.
pub open spec fn far_cost(nodes: Seq<Node>, f: int, near: Seq<usize>) -> int {
    per_packet_spec() * nodes[f].cluster_member_ids@.len() + match relay_target(nodes, f, near) {
        Some(t) => transmit_spec(
            DATA_PACKET_SIZE_BITS as int,
            dist_sq_spec(nodes[f].position, nodes[t as int].position),
        ),
        None => transmit_spec(DATA_PACKET_SIZE_BITS as int, nodes[f].distance_sq_to_base_station as int),
    }
}

/// Whether far-zone head `f` relays through node `t`.
pub open spec fn relays_to(nodes: Seq<Node>, f: int, near: Seq<usize>, t: int) -> bool {
    relay_target(nodes, f, near) is Some && relay_target(nodes, f, near)->0 as int == t
}

/// How many of the first `m` far-zone heads relay through `t`.
pub open spec fn relays_into(nodes: Seq<Node>, far: Seq<usize>, near: Seq<usize>, t: int, m: int) -> int
    decreases m,
{
    if m <= 0 {
        0
    } else {
        relays_into(nodes, far, near, t, m - 1) + if relays_to(nodes, far[m - 1] as int, near, t) {
            1int
        } else {
            0int
        }
    }
}

/// Energy of node `x` once the first `m` far-zone heads and the first `q`
/// near-zone heads have paid.
pub open spec fn dissipated(nodes: Seq<Node>, far: Seq<usize>, near: Seq<usize>, x: int, m: int, q: int) -> int {
    nodes[x].remaining_energy_pj - (if in_prefix(far, x, m) {
        far_cost(nodes, x, near)
    } else {
        0
    }) - (if in_prefix(near, x, near.len() as int) {
        per_packet_spec() * relays_into(nodes, far, near, x, m)
    } else {
        0
    }) - (if in_prefix(near, x, q) {
        direct_head_cost(nodes, x)
    } else {
        0
    })
}

/// The facts about the zone buckets that dissipation relies on.
pub open spec fn zones_wf(nodes: Seq<Node>, far: Seq<usize>, near: Seq<usize>) -> bool {
    &&& far.len() <= MAX_NODES
    &&& near.len() <= MAX_NODES
    &&& forall|p: int| 0 <= p < far.len() ==> (#[trigger] far[p]) < nodes.len() && !is_near(nodes[far[p] as int])
    &&& forall|p: int| 0 <= p < near.len() ==> (#[trigger] near[p]) < nodes.len() && is_near(nodes[near[p] as int])
    &&& forall|p: int, q: int| 0 <= p < q < far.len() ==> far[p] != far[q]
    &&& forall|p: int, q: int| 0 <= p < q < near.len() ==> near[p] != near[q]
    &&& forall|i: int| 0 <= i < nodes.len() ==> (#[trigger] nodes[i]).cluster_member_ids@.len() <= MAX_NODES
}

proof fn lemma_relays_into_le(nodes: Seq<Node>, far: Seq<usize>, near: Seq<usize>, t: int, m: int)
    requires
        0 <= m,
    ensures
        0 <= relays_into(nodes, far, near, t, m) <= m,
    decreases m,
{
    if m > 0 {
        lemma_relays_into_le(nodes, far, near, t, m - 1);
    }
}

/// The relay choice of far-zone head `f`: the nearest near-zone head (first
/// on ties) when it is strictly closer than the base station, else `None`.
pub fn relay_choice(nodes: &Vec<Node>, f: usize, near: &Vec<usize>) -> (r: Option<usize>)
    requires
        forall|i: int| 0 <= i < nodes@.len() ==> (#[trigger] nodes@[i]).position.in_bounds(),
        f < nodes@.len(),
        forall|p: int| 0 <= p < near@.len() ==> (#[trigger] near@[p]) < nodes@.len(),
    ensures
        r == relay_target(nodes@, f as int, near@),
{
    let best = nearest_listed_node(nodes, f, near);
    match best {
        Some(t) => if dist_sq(nodes[f].position, nodes[t].position) < nodes[f].distance_sq_to_base_station {
            Some(t)
        } else {
            None
        },
        None => None,
    }
}

} // verus!

verus! {

proof fn lemma_relay_target_frame(a: Seq<Node>, b: Seq<Node>, f: int, near: Seq<usize>)
    requires
        a.len() == b.len(),
        forall|i: int| 0 <= i < a.len() ==> same_frame(#[trigger] a[i], b[i]),
        0 <= f < a.len(),
        forall|p: int| 0 <= p < near.len() ==> (#[trigger] near[p]) < a.len(),
    ensures
        relay_target(a, f, near) == relay_target(b, f, near),
{
    lemma_nearest_listed_frame(a, b, f, near, near.len() as int);
    lemma_nearest_listed_in(a, f, near, near.len() as int);
    assert(same_frame(a[f], b[f]));
    if let Some(t) = nearest_listed(a, f, near, near.len() as int) {
        let p = choose|p: int| 0 <= p < near.len() && near[p] == t;
        assert(near[p] < a.len());
        assert(same_frame(a[t as int], b[t as int]));
    }
}

proof fn lemma_costs_bounded(nodes: Seq<Node>, far: Seq<usize>, near: Seq<usize>, x: int, m: int)
    requires
        nodes_wf(nodes),
        zones_wf(nodes, far, near),
        0 <= x < nodes.len(),
        0 <= m <= far.len(),
    ensures
        0 <= far_cost(nodes, x, near) <= CHARGE_MAX,
        0 <= direct_head_cost(nodes, x) <= CHARGE_MAX,
        0 <= per_packet_spec() * relays_into(nodes, far, near, x, m) <= CHARGE_MAX,
        0 <= per_packet_spec() * nodes[x].cluster_member_ids@.len() <= 300_000_000_000_000,
{
    let n = nodes[x];
    assert(node_wf(n, x));
    crate::node::lemma_dist_sq_bounded(n.position, crate::node::base_station());
    lemma_transmit_bounds(DATA_PACKET_SIZE_BITS as int, n.distance_sq_to_base_station as int);
    let k = n.cluster_member_ids@.len() as int;
    assert(per_packet_spec() == 220_000_000);
    assert(0 <= 220_000_000 * k <= 220_000_000 * 1_000_000) by (nonlinear_arith)
        requires 0 <= k <= 1_000_000;
    lemma_relays_into_le(nodes, far, near, x, m);
    let r = relays_into(nodes, far, near, x, m);
    assert(0 <= 220_000_000 * r <= 220_000_000 * 1_000_000) by (nonlinear_arith)
        requires 0 <= r <= 1_000_000;
    lemma_nearest_listed_in(nodes, x, near, near.len() as int);
    if let Some(t) = relay_target(nodes, x, near) {
        let p = choose|p: int| 0 <= p < near.len() && near[p] == t;
        assert(near[p] < nodes.len());
        assert(node_wf(nodes[t as int], t as int));
        crate::node::lemma_dist_sq_bounded(n.position, nodes[t as int].position);
        lemma_transmit_bounds(
            DATA_PACKET_SIZE_BITS as int,
            dist_sq_spec(n.position, nodes[t as int].position),
        );
    }
}

proof fn lemma_far_step(nodes: Seq<Node>, far: Seq<usize>, near: Seq<usize>, m: int, x: int)
    requires
        zones_wf(nodes, far, near),
        0 <= m < far.len(),
        0 <= x < nodes.len(),
    ensures
        dissipated(nodes, far, near, x, m + 1, 0) == dissipated(nodes, far, near, x, m, 0) - (if x
            == far[m] as int {
            far_cost(nodes, x, near)
        } else {
            0
        }) - (if relays_to(nodes, far[m] as int, near, x) {
            per_packet_spec()
        } else {
            0
        }),
        x == far[m] as int ==> dissipated(nodes, far, near, x, m, 0) == nodes[x].remaining_energy_pj,
        !in_prefix(near, x, near.len() as int) ==> relays_into(nodes, far, near, x, m) == 0,
{
    let f = far[m] as int;
    if x == f {
        assert(far[m] as int == x);
        assert(in_prefix(far, x, m + 1));
        if in_prefix(far, x, m) {
            let p = choose|p: int| 0 <= p < m && #[trigger] far[p] as int == x;
            assert(far[p] != far[m]);
        }
        if in_prefix(near, x, near.len() as int) {
            let p = choose|p: int| 0 <= p < near.len() && #[trigger] near[p] as int == x;
            assert(is_near(nodes[near[p] as int]));
        }
    } else {
        if in_prefix(far, x, m + 1) {
            let p = choose|p: int| 0 <= p < m + 1 && #[trigger] far[p] as int == x;
            assert(in_prefix(far, x, m));
        }
        if in_prefix(far, x, m) {
            let p = choose|p: int| 0 <= p < m && #[trigger] far[p] as int == x;
            assert(in_prefix(far, x, m + 1));
        }
    }
    lemma_nearest_listed_in(nodes, f, near, near.len() as int);
    if relays_to(nodes, f, near, x) {
        let p = choose|p: int| 0 <= p < near.len() && near[p] == relay_target(nodes, f, near)->0;
        assert(near[p] as int == x);
        assert(in_prefix(near, x, near.len() as int));
    }
    lemma_no_relays_outside_near(nodes, far, near, x, m);
    let r0 = relays_into(nodes, far, near, x, m);
    let step: int = if relays_to(nodes, f, near, x) { 1 } else { 0 };
    assert(relays_into(nodes, far, near, x, m + 1) == r0 + step);
    vstd::arithmetic::mul::lemma_mul_is_distributive_add(per_packet_spec(), r0, step);
}

proof fn lemma_no_relays_outside_near(nodes: Seq<Node>, far: Seq<usize>, near: Seq<usize>, x: int, m: int)
    requires
        0 <= m,
        0 <= x,
    ensures
        !in_prefix(near, x, near.len() as int) ==> relays_into(nodes, far, near, x, m) == 0,
    decreases m,
{
    if m > 0 {
        lemma_no_relays_outside_near(nodes, far, near, x, m - 1);
        lemma_nearest_listed_in(nodes, far[m - 1] as int, near, near.len() as int);
        if relays_to(nodes, far[m - 1] as int, near, x) {
            let p = choose|p: int| 0 <= p < near.len() && near[p] == relay_target(nodes, far[m - 1] as int, near)->0;
            assert(near[p] as int == x);
            assert(in_prefix(near, x, near.len() as int));
        }
    }
}

proof fn lemma_near_step(nodes: Seq<Node>, far: Seq<usize>, near: Seq<usize>, q: int, x: int)
    requires
        zones_wf(nodes, far, near),
        0 <= q < near.len(),
        0 <= x < nodes.len(),
    ensures
        dissipated(nodes, far, near, x, far.len() as int, q + 1) == dissipated(
            nodes,
            far,
            near,
            x,
            far.len() as int,
            q,
        ) - (if x == near[q] as int {
            direct_head_cost(nodes, x)
        } else {
            0
        }),
        x == near[q] as int ==> dissipated(nodes, far, near, x, far.len() as int, q)
            == nodes[x].remaining_energy_pj - per_packet_spec() * relays_into(
            nodes,
            far,
            near,
            x,
            far.len() as int,
        ),
{
    if x == near[q] as int {
        assert(in_prefix(near, x, q + 1));
        assert(in_prefix(near, x, near.len() as int));
        if in_prefix(near, x, q) {
            let p = choose|p: int| 0 <= p < q && #[trigger] near[p] as int == x;
            assert(near[p] != near[q]);
        }
        if in_prefix(far, x, far.len() as int) {
            let p = choose|p: int| 0 <= p < far.len() && #[trigger] far[p] as int == x;
            assert(!is_near(nodes[far[p] as int]));
        }
    } else {
        if in_prefix(near, x, q + 1) {
            let p = choose|p: int| 0 <= p < q + 1 && #[trigger] near[p] as int == x;
            assert(in_prefix(near, x, q));
        }
        if in_prefix(near, x, q) {
            let p = choose|p: int| 0 <= p < q && #[trigger] near[p] as int == x;
            assert(in_prefix(near, x, q + 1));
        }
    }
}

impl Zcr {
    /// Charges every head of the round. A far-zone head pays for its members'
    /// packets and then transmits once: to the nearest near-zone head when
    /// that is strictly closer than the base station (which then pays for one
    /// more packet), else to the base station. A near-zone head pays for its
    /// members' packets and one transmission to the base station.
    pub fn dissipate_cluster_head_energy(&self, nodes: &mut Vec<Node>)
        requires
            nodes_wf(old(nodes)@),
            zones_wf(old(nodes)@, self.far_zone_heads@, self.near_zone_heads@),
        ensures
            final(nodes)@.len() == old(nodes)@.len(),
            forall|x: int|
                0 <= x < old(nodes)@.len() ==> #[trigger] final(nodes)@[x] == with_energy(
                    old(nodes)@[x],
                    dissipated(
                        old(nodes)@,
                        self.far_zone_heads@,
                        self.near_zone_heads@,
                        x,
                        self.far_zone_heads@.len() as int,
                        self.near_zone_heads@.len() as int,
                    ),
                ),
    {
        let ghost start = nodes@;
        let ghost far = self.far_zone_heads@;
        let ghost near = self.near_zone_heads@;
        let per_packet: u128 = receive_energy(DATA_PACKET_SIZE_BITS) + aggregation_energy(DATA_PACKET_SIZE_BITS);
        let mut m: usize = 0;
        while m < self.far_zone_heads.len()
            invariant
                m <= far.len(),
                far == self.far_zone_heads@,
                near == self.near_zone_heads@,
                per_packet == per_packet_spec(),
                nodes_wf(start),
                zones_wf(start, far, near),
                nodes@.len() == start.len(),
                forall|x: int|
                    0 <= x < start.len() ==> #[trigger] nodes@[x] == with_energy(
                        start[x],
                        dissipated(start, far, near, x, m as int, 0),
                    ),
            decreases far.len() - m,
        {
            let f = self.far_zone_heads[m];
            proof {
                lemma_costs_bounded(start, far, near, f as int, m as int);
                lemma_far_step(start, far, near, m as int, f as int);
                assert(node_wf(start[f as int], f as int));
            }
            let ghost mid0 = nodes@;
            let member_count = nodes[f].cluster_member_ids.len() as u128;
            charge(nodes, f, per_packet * member_count);
            proof {
                assert forall|i: int| 0 <= i < start.len() implies same_frame(#[trigger] start[i], nodes@[i]) by {
                    assert(mid0[i] == with_energy(start[i], dissipated(start, far, near, i, m as int, 0)));
                }
                assert forall|i: int| 0 <= i < start.len() implies (#[trigger] nodes@[i]).distance_sq_to_base_station
                    == start[i].distance_sq_to_base_station && nodes@[i].position == start[i].position by {
                    assert(same_frame(start[i], nodes@[i]));
                }
                assert forall|i: int| 0 <= i < nodes@.len() implies (#[trigger] nodes@[i]).position.in_bounds() by {
                    assert(node_wf(start[i], i));
                }
                lemma_relay_target_frame(start, nodes@, f as int, near);
            }
            let relay = relay_choice(nodes, f, &self.near_zone_heads);
            let ghost mid1 = nodes@;
            assert(relay == relay_target(start, f as int, near));
            assert(mid1[f as int].remaining_energy_pj == start[f as int].remaining_energy_pj
                - per_packet_spec() * start[f as int].cluster_member_ids@.len());
            match relay {
                Some(t) => {
                    proof {
                        lemma_nearest_listed_in(start, f as int, near, near.len() as int);
                        let p = choose|p: int| 0 <= p < near.len() && near[p] == t;
                        assert(near[p] < start.len());
                        lemma_costs_bounded(start, far, near, t as int, m as int);
                        lemma_far_step(start, far, near, m as int, t as int);
                        assert(node_wf(start[t as int], t as int));
                        assert(mid0[t as int] == with_energy(start[t as int], dissipated(start, far, near, t as int, m as int, 0)));
                        crate::node::lemma_dist_sq_bounded(start[f as int].position, start[t as int].position);
                        assert(t != f);
                    }
                    let d = dist_sq(nodes[f].position, nodes[t].position);
                    charge(nodes, f, transmit_energy(DATA_PACKET_SIZE_BITS, d));
                    charge(nodes, t, per_packet);
                },
                None => {
                    proof {
                        crate::node::lemma_dist_sq_bounded(start[f as int].position, crate::node::base_station());
                    }
                    let d = nodes[f].distance_sq_to_base_station;
                    charge(nodes, f, transmit_energy(DATA_PACKET_SIZE_BITS, d));
                },
            }
            proof {
                assert forall|x: int| 0 <= x < start.len() implies #[trigger] nodes@[x] == with_energy(
                    start[x],
                    dissipated(start, far, near, x, m as int + 1, 0),
                ) by {
                    lemma_far_step(start, far, near, m as int, x);
                    assert(mid0[x] == with_energy(start[x], dissipated(start, far, near, x, m as int, 0)));
                    if x != f as int && !relays_to(start, f as int, near, x) {
                        assert(nodes@[x] == mid0[x]);
                    }
                }
            }
            m = m + 1;
        }
        let mut q: usize = 0;
        while q < self.near_zone_heads.len()
            invariant
                q <= near.len(),
                far == self.far_zone_heads@,
                near == self.near_zone_heads@,
                per_packet == per_packet_spec(),
                nodes_wf(start),
                zones_wf(start, far, near),
                nodes@.len() == start.len(),
                forall|x: int|
                    0 <= x < start.len() ==> #[trigger] nodes@[x] == with_energy(
                        start[x],
                        dissipated(start, far, near, x, far.len() as int, q as int),
                    ),
            decreases near.len() - q,
        {
            let t = self.near_zone_heads[q];
            let ghost mid0 = nodes@;
            proof {
                lemma_costs_bounded(start, far, near, t as int, far.len() as int);
                lemma_near_step(start, far, near, q as int, t as int);
                assert(node_wf(start[t as int], t as int));
                assert(mid0[t as int] == with_energy(start[t as int], dissipated(start, far, near, t as int, far.len() as int, q as int)));
                crate::node::lemma_dist_sq_bounded(start[t as int].position, crate::node::base_station());
            }
            let member_count = nodes[t].cluster_member_ids.len() as u128;
            charge(nodes, t, per_packet * member_count);
            let d = nodes[t].distance_sq_to_base_station;
            charge(nodes, t, transmit_energy(DATA_PACKET_SIZE_BITS, d));
            proof {
                assert forall|x: int| 0 <= x < start.len() implies #[trigger] nodes@[x] == with_energy(
                    start[x],
                    dissipated(start, far, near, x, far.len() as int, q as int + 1),
                ) by {
                    lemma_near_step(start, far, near, q as int, x);
                    assert(mid0[x] == with_energy(start[x], dissipated(start, far, near, x, far.len() as int, q as int)));
                }
            }
            q = q + 1;
        }
    }
}

} // verus!

verus! {

proof fn lemma_zone_prefix(nodes: Seq<Node>, sel: Seq<Option<usize>>, a: Seq<usize>, near: bool, m: int)
    requires
        a.len() == nodes.len(),
        0 <= m <= sel.len(),
        forall|c: int|
            0 <= c < sel.len() ==> (#[trigger] sel[c] matches Some(j) ==> j < nodes.len() && a[j as int] == c),
    ensures
        zone_prefix(nodes, sel, near, m).len() <= m,
        forall|p: int|
            0 <= p < zone_prefix(nodes, sel, near, m).len() ==> {
                let j = #[trigger] zone_prefix(nodes, sel, near, m)[p];
                &&& j < nodes.len()
                &&& a[j as int] < m
                &&& is_near(nodes[j as int]) == near
                &&& selected_within(sel, j as int, m)
            },
        forall|p: int, q: int|
            0 <= p < q < zone_prefix(nodes, sel, near, m).len() ==> zone_prefix(nodes, sel, near, m)[p]
                != zone_prefix(nodes, sel, near, m)[q],
    decreases m,
{
    if m > 0 {
        lemma_zone_prefix(nodes, sel, a, near, m - 1);
        let prev = zone_prefix(nodes, sel, near, m - 1);
        let cur = zone_prefix(nodes, sel, near, m);
        assert forall|p: int| 0 <= p < cur.len() implies {
            let j = #[trigger] cur[p];
            &&& j < nodes.len()
            &&& a[j as int] < m
            &&& is_near(nodes[j as int]) == near
            &&& selected_within(sel, j as int, m)
        } by {
            if p < prev.len() {
                assert(cur[p] == prev[p]);
                let j = prev[p];
                assert(selected_within(sel, j as int, m - 1));
                let c = choose|c: int| 0 <= c < m - 1 && #[trigger] sel[c] is Some && sel[c]->0 == j as int;
                assert(0 <= c < m && sel[c] is Some && sel[c]->0 == j as int);
            } else {
                assert(sel[m - 1] is Some);
                let c = m - 1;
                assert(0 <= c < m && sel[c] is Some && sel[c]->0 == cur[p] as int);
            }
        }
        assert forall|p: int, q: int| 0 <= p < q < cur.len() implies cur[p] != cur[q] by {
            if q >= prev.len() {
                assert(cur[p] == prev[p]);
                assert(a[cur[q] as int] == m - 1);
            } else {
                assert(cur[p] == prev[p]);
                assert(cur[q] == prev[q]);
            }
        }
    }
}

proof fn lemma_dissipated_range(nodes: Seq<Node>, far: Seq<usize>, near: Seq<usize>, x: int)
    requires
        nodes_wf(nodes),
        zones_wf(nodes, far, near),
        0 <= x < nodes.len(),
    ensures
        nodes[x].remaining_energy_pj - 3 * CHARGE_MAX <= dissipated(
            nodes,
            far,
            near,
            x,
            far.len() as int,
            near.len() as int,
        ) <= nodes[x].remaining_energy_pj,
        !in_prefix(far, x, far.len() as int) && !in_prefix(near, x, near.len() as int) ==> dissipated(
            nodes,
            far,
            near,
            x,
            far.len() as int,
            near.len() as int,
        ) == nodes[x].remaining_energy_pj,
{
    lemma_costs_bounded(nodes, far, near, x, far.len() as int);
    lemma_no_relays_outside_near(nodes, far, near, x, far.len() as int);
}

impl Zcr {
    /// The protocol's invariant: a probability in `(0, 1]` and a positive
    /// diagonal normalizer.
    pub open spec fn zcr_wf(&self) -> bool {
        &&& 1 <= self.cluster_head_probability_ppm <= 1_000_000
        &&& 0 < self.diagonal_cm <= MAX_DIAGONAL_CM
    }

    /// A zone-based protocol with the given cluster-head probability (parts
    /// per million) on a `width` × `height` area (cm), whose diagonal
    /// normalizes the head score; `None` unless the probability lies in
    /// `(0, 1]` and the area exceeds one metre each way (within `MAX_COORD`).
    pub fn new(cluster_head_probability_ppm: u32, width: i64, height: i64) -> (r: Option<Zcr>)
        ensures
            r is Some <==> (1 <= cluster_head_probability_ppm <= 1_000_000 && 100 < width <= MAX_COORD && 100
                < height <= MAX_COORD),
            r matches Some(z) ==> {
                &&& z.zcr_wf()
                &&& z.cluster_head_probability_ppm == cluster_head_probability_ppm
                &&& z.num_cluster_heads == 0
                &&& z.far_zone_heads@.len() == 0
                &&& z.near_zone_heads@.len() == 0
                &&& z.diagonal_cm == isqrt_spec(width * width + height * height)
            },
    {
        if cluster_head_probability_ppm == 0 || cluster_head_probability_ppm > 1_000_000 {
            return None;
        }
        if !(100 < width && width <= MAX_COORD && 100 < height && height <= MAX_COORD) {
            return None;
        }
        let w = width as u64;
        let h = height as u64;
        assert(w * w <= 1_000_000 * 1_000_000 && h * h <= 1_000_000 * 1_000_000) by (nonlinear_arith)
            requires w <= 1_000_000, h <= 1_000_000;
        assert(w * w >= 1) by (nonlinear_arith)
            requires w >= 1;
        let diagonal_cm = isqrt(w * w + h * h);
        assert(diagonal_cm > 0) by {
            if diagonal_cm == 0 {
                assert(1 * 1 > w * w + h * h);
            }
        }
        assert(diagonal_cm <= MAX_DIAGONAL_CM) by {
            if diagonal_cm > 2_000_000 {
                assert(diagonal_cm * diagonal_cm > 2_000_000 * 2_000_000) by (nonlinear_arith)
                    requires diagonal_cm > 2_000_000;
            }
        }
        Some(Zcr {
            num_cluster_heads: 0,
            cluster_head_probability_ppm,
            far_zone_heads: Vec::new(),
            near_zone_heads: Vec::new(),
            diagonal_cm,
        })
    }
}

} // verus!

verus! {

/// `n` once depleted nodes are retired at the start of a round.
pub open spec fn retired(n: Node) -> Node {
    Node { is_alive: n.is_alive && n.remaining_energy_pj > 0, ..n }
}

/// Every node of `s` once depleted nodes are retired.
pub open spec fn retired_all(s: Seq<Node>) -> Seq<Node> {
    Seq::new(s.len(), |i: int| retired(s[i]))
}

/// The heads a round picks on the given clustering, from the nodes as they
/// were before the round.
pub open spec fn round_heads(nodes: Seq<Node>, cs: Seq<Point>, a: Seq<usize>, diagonal: int) -> Seq<Option<usize>> {
    selected_heads(retired_all(nodes), cs, a, diagonal)
}

proof fn lemma_best_prefix_agree(
    n1: Seq<Node>,
    n2: Seq<Node>,
    cs: Seq<Point>,
    a: Seq<usize>,
    diagonal: int,
    c: int,
    m: int,
)
    requires
        n1.len() == n2.len(),
        0 <= m <= n1.len(),
        forall|i: int|
            0 <= i < n1.len() ==> {
                &&& (#[trigger] n1[i]).is_alive == n2[i].is_alive
                &&& n1[i].remaining_energy_pj == n2[i].remaining_energy_pj
                &&& n1[i].position == n2[i].position
            },
        n1.len() <= MAX_NODES,
        m <= a.len(),
    ensures
        best_prefix(n1, cs, a, diagonal, c, m) == best_prefix(n2, cs, a, diagonal, c, m),
    decreases m,
{
    if m > 0 {
        lemma_best_prefix_agree(n1, n2, cs, a, diagonal, c, m - 1);
        lemma_best_prefix_facts(n1, cs, a, diagonal, c, m - 1);
        assert(n1[m - 1].is_alive == n2[m - 1].is_alive);
        if let Some(b) = best_prefix(n1, cs, a, diagonal, c, m - 1) {
            assert(n1[b as int].is_alive == n2[b as int].is_alive);
        }
    }
}

proof fn lemma_zone_prefix_agree(n1: Seq<Node>, n2: Seq<Node>, sel: Seq<Option<usize>>, near: bool, m: int)
    requires
        n1.len() == n2.len(),
        0 <= m <= sel.len(),
        forall|i: int| 0 <= i < n1.len() ==> (#[trigger] n1[i]).distance_sq_to_base_station == n2[i].distance_sq_to_base_station,
        forall|c: int| 0 <= c < sel.len() ==> (#[trigger] sel[c] matches Some(j) ==> j < n1.len()),
    ensures
        zone_prefix(n1, sel, near, m) == zone_prefix(n2, sel, near, m),
    decreases m,
{
    if m > 0 {
        lemma_zone_prefix_agree(n1, n2, sel, near, m - 1);
        if let Some(j) = sel[m - 1] {
            assert(n1[j as int].distance_sq_to_base_station == n2[j as int].distance_sq_to_base_station);
        }
    }
}

/// Node `o` once the round's heads are flagged: retired if depleted,
/// transient fields cleared, and flagged as head when it heads a cluster.
pub open spec fn flagged_node(o: Node, heads: Seq<Option<usize>>, i: int) -> Node {
    Node {
        is_alive: o.is_alive && o.remaining_energy_pj > 0,
        is_cluster_head: selected_within(heads, i, heads.len() as int),
        cluster_head_id: None,
        ..o
    }
}

/// Every node once the round's heads are flagged.
pub open spec fn flagged_all(s: Seq<Node>, heads: Seq<Option<usize>>) -> Seq<Node> {
    Seq::new(s.len(), |i: int| flagged_node(s[i], heads, i))
}

/// What node `x` spends in a zone-based round, given the flagged nodes `v`,
/// the heads `sel` of the clusters `a`, and the zone buckets: a member sends
/// one packet to its head; a far-zone head receives and aggregates its
/// members' packets and sends once (relayed or direct); a near-zone head
/// receives and aggregates its members' packets and every relayed packet and
/// sends once to the base station.
pub open spec fn zone_round_cost(
    v: Seq<Node>,
    sel: Seq<Option<usize>>,
    a: Seq<usize>,
    far: Seq<usize>,
    near: Seq<usize>,
    x: int,
) -> int {
    let members = joined_prefix(v, sel, a, x, v.len() as int).len();
    (if joins(v, sel, a, x) {
        transmit_spec(
            DATA_PACKET_SIZE_BITS as int,
            dist_sq_spec(v[x].position, v[head_of(sel, a, x) as int].position),
        )
    } else {
        0
    }) + (if in_prefix(far, x, far.len() as int) {
        per_packet_spec() * members + match relay_target(v, x, near) {
            Some(t) => transmit_spec(
                DATA_PACKET_SIZE_BITS as int,
                dist_sq_spec(v[x].position, v[t as int].position),
            ),
            None => transmit_spec(DATA_PACKET_SIZE_BITS as int, v[x].distance_sq_to_base_station as int),
        }
    } else {
        0
    }) + (if in_prefix(near, x, near.len() as int) {
        per_packet_spec() * relays_into(v, far, near, x, far.len() as int) + per_packet_spec() * members
            + transmit_spec(DATA_PACKET_SIZE_BITS as int, v[x].distance_sq_to_base_station as int)
    } else {
        0
    })
}

proof fn lemma_joined_prefix_agree(
    n1: Seq<Node>,
    n2: Seq<Node>,
    sel: Seq<Option<usize>>,
    a: Seq<usize>,
    h: int,
    m: int,
)
    requires
        n1.len() == n2.len(),
        0 <= m <= n1.len(),
        forall|i: int|
            0 <= i < n1.len() ==> (#[trigger] n1[i]).is_alive == n2[i].is_alive && n1[i].is_cluster_head
                == n2[i].is_cluster_head,
    ensures
        joined_prefix(n1, sel, a, h, m) == joined_prefix(n2, sel, a, h, m),
    decreases m,
{
    if m > 0 {
        lemma_joined_prefix_agree(n1, n2, sel, a, h, m - 1);
        assert(n1[m - 1].is_alive == n2[m - 1].is_alive);
    }
}

proof fn lemma_relays_into_agree(n1: Seq<Node>, n2: Seq<Node>, far: Seq<usize>, near: Seq<usize>, t: int, m: int)
    requires
        n1.len() == n2.len(),
        0 <= m <= far.len(),
        forall|i: int| 0 <= i < n1.len() ==> same_frame(#[trigger] n1[i], n2[i]),
        forall|p: int| 0 <= p < far.len() ==> (#[trigger] far[p]) < n1.len(),
        forall|p: int| 0 <= p < near.len() ==> (#[trigger] near[p]) < n1.len(),
    ensures
        relays_into(n1, far, near, t, m) == relays_into(n2, far, near, t, m),
    decreases m,
{
    if m > 0 {
        lemma_relays_into_agree(n1, n2, far, near, t, m - 1);
        lemma_relay_target_frame(n1, n2, far[m - 1] as int, near);
    }
}

/// One zone-based round on the clustering `cs` / `a` takes protocol `z` and
/// simulator `before` to `z2` and `after`: depleted nodes retire, each
/// cluster's head is picked by score, heads are bucketed by zone, every node
/// pays `zone_round_cost`, and eligibility flags are left alone.
pub open spec fn zcr_round(z: Zcr, before: Simulator, z2: Zcr, after: Simulator, cs: Seq<Point>, a: Seq<usize>) -> bool {
    &&& z2.zcr_wf()
    &&& z2.num_cluster_heads == z.num_cluster_heads
    &&& after.wf()
    &&& round_step(before.nodes@, after.nodes@)
    &&& after.current_round == before.current_round
    &&& forall|i: int|
        0 <= i < before.nodes@.len() ==> (#[trigger] after.nodes@[i]).is_alive == (
        before.nodes@[i].is_alive && before.nodes@[i].remaining_energy_pj > 0)
    &&& forall|i: int|
        0 <= i < before.nodes@.len() && !(before.nodes@[i].is_alive
            && before.nodes@[i].remaining_energy_pj > 0) ==> (#[trigger] after.nodes@[i]).remaining_energy_pj == before.nodes@[i].remaining_energy_pj
    &&& z2.near_zone_heads@ == zone_prefix(
        before.nodes@,
        round_heads(before.nodes@, cs, a, z.diagonal_cm as int),
        true,
        cs.len() as int,
    )
    &&& z2.far_zone_heads@ == zone_prefix(
        before.nodes@,
        round_heads(before.nodes@, cs, a, z.diagonal_cm as int),
        false,
        cs.len() as int,
    )
    &&& ({
        let heads = round_heads(before.nodes@, cs, a, z.diagonal_cm as int);
        let v = flagged_all(before.nodes@, heads);
        forall|x: int|
            0 <= x < before.nodes@.len() ==> {
                &&& (#[trigger] after.nodes@[x]).remaining_energy_pj
                    == before.nodes@[x].remaining_energy_pj - zone_round_cost(
                    v,
                    heads,
                    a,
                    z2.far_zone_heads@,
                    z2.near_zone_heads@,
                    x,
                )
                &&& after.nodes@[x].cluster_head_id == if joins(v, heads, a, x) {
                    Some(head_of(heads, a, x))
                } else {
                    None
                }
                &&& after.nodes@[x].cluster_member_ids@ == joined_prefix(
                    v,
                    heads,
                    a,
                    x,
                    v.len() as int,
                )
            }
    })
    &&& forall|i: int|
        0 <= i < before.nodes@.len() ==> (#[trigger] after.nodes@[i]).is_cluster_head
            == selected_within(
            round_heads(before.nodes@, cs, a, z.diagonal_cm as int),
            i,
            cs.len() as int,
        )
    &&& z2.cluster_head_probability_ppm == z.cluster_head_probability_ppm
    &&& z2.diagonal_cm == z.diagonal_cm
    &&& forall|i: int|
        0 <= i < before.nodes@.len() ==> (#[trigger] after.nodes@[i]).is_eligible_for_ch
            == before.nodes@[i].is_eligible_for_ch
}

impl Zcr {
    /// One round on a given clustering (`centroids`, and the cluster index of
    /// each node): clear and retire nodes, pick one head per cluster, bucket
    /// the heads by zone, form the clusters and charge the heads.
    pub fn run_round_with_clustering(
        &mut self,
        simulator: &mut Simulator,
        centroids: &Vec<Point>,
        clusters: &Vec<usize>,
    )
        requires
            old(self).zcr_wf(),
            old(simulator).wf(),
            clusters@.len() == old(simulator).nodes@.len(),
            centroids@.len() <= MAX_NODES,
            all_in_bounds(centroids@),
            forall|i: int| 0 <= i < clusters@.len() ==> #[trigger] clusters@[i] < centroids@.len(),
        ensures
            zcr_round(*old(self), *old(simulator), *final(self), *final(simulator), centroids@, clusters@),
    {
        let ghost n0 = simulator.nodes@;
        let ghost a = clusters@;
        begin_round(&mut simulator.nodes, &mut simulator.alive_node_count, false);
        let ghost begun = simulator.nodes@;
        proof {
            assert forall|i: int| 0 <= i < begun.len() implies node_wf(#[trigger] begun[i], i) by {
                assert(begins_round(n0[i], begun[i], false));
                assert(node_wf(n0[i], i));
            }
        }
        let selected = select_cluster_heads(&simulator.nodes, centroids, clusters, self.diagonal_cm);
        let ghost sel = selected@;
        proof {
            assert forall|c: int| 0 <= c < sel.len() implies (#[trigger] sel[c] matches Some(j) ==> j
                < begun.len() && a[j as int] == c && begun[j as int].is_alive) by {
                lemma_best_prefix_facts(begun, centroids@, a, self.diagonal_cm as int, c, begun.len() as int);
            }
            let r = retired_all(n0);
            assert forall|i: int| 0 <= i < begun.len() implies {
                &&& (#[trigger] begun[i]).is_alive == r[i].is_alive
                &&& begun[i].remaining_energy_pj == r[i].remaining_energy_pj
                &&& begun[i].position == r[i].position
            } by {
                assert(begins_round(n0[i], begun[i], false));
            }
            assert forall|c: int| 0 <= c < sel.len() implies #[trigger] sel[c] == round_heads(
                n0,
                centroids@,
                a,
                self.diagonal_cm as int,
            )[c] by {
                lemma_best_prefix_agree(begun, r, centroids@, a, self.diagonal_cm as int, c, begun.len() as int);
            }
            assert(sel =~= round_heads(n0, centroids@, a, self.diagonal_cm as int));
            assert forall|i: int| 0 <= i < begun.len() implies (#[trigger] begun[i]).distance_sq_to_base_station
                == n0[i].distance_sq_to_base_station by {
                assert(begins_round(n0[i], begun[i], false));
            }
            lemma_zone_prefix_agree(begun, n0, sel, true, sel.len() as int);
            lemma_zone_prefix_agree(begun, n0, sel, false, sel.len() as int);
        }
        self.assign_zones(&selected, &mut simulator.nodes);
        let ghost assigned = simulator.nodes@;
        let ghost far = self.far_zone_heads@;
        let ghost near = self.near_zone_heads@;
        proof {
            lemma_zone_prefix(begun, sel, a, true, sel.len() as int);
            lemma_zone_prefix(begun, sel, a, false, sel.len() as int);
            assert forall|i: int| 0 <= i < assigned.len() implies node_wf(#[trigger] assigned[i], i) by {
                assert(node_wf(begun[i], i));
            }
            assert forall|c: int| 0 <= c < sel.len() implies (#[trigger] sel[c] matches Some(h) ==> h
                < assigned.len() && assigned[h as int].is_cluster_head) by {
                if let Some(h) = sel[c] {
                    assert(selected_within(sel, h as int, sel.len() as int));
                }
            }
        }
        Zcr::form_clusters(&selected, &mut simulator.nodes, clusters);
        let ghost formed_nodes = simulator.nodes@;
        proof {
            assert forall|t: int| 0 <= t < assigned.len() implies {
                &&& node_wf(#[trigger] formed_nodes[t], t)
                &&& formed_nodes[t].cluster_member_ids@.len() <= MAX_NODES
                &&& formed_nodes[t].is_alive == begun[t].is_alive
                &&& (begun[t].is_alive ==> formed_nodes[t].remaining_energy_pj >= -CHARGE_MAX)
                &&& (!begun[t].is_alive ==> formed_nodes[t].remaining_energy_pj == begun[t].remaining_energy_pj)
                &&& formed_nodes[t].remaining_energy_pj <= begun[t].remaining_energy_pj
            } by {
                assert(formed(assigned, sel, a, t, assigned.len() as int, formed_nodes[t]));
                assert(node_wf(begun[t], t));
                assert(begins_round(n0[t], begun[t], false));
                assert(assigned[t].cluster_member_ids@.len() == 0);
                assert(assigned[t].remaining_energy_pj == begun[t].remaining_energy_pj);
                assert(begun[t].is_alive ==> begun[t].remaining_energy_pj > 0);
                lemma_joined_prefix_len(assigned, sel, a, t, assigned.len() as int);
                if t < assigned.len() && joins(assigned, sel, a, t) {
                    let h = head_of(sel, a, t);
                    assert(node_wf(assigned[h as int], h as int));
                    crate::node::lemma_dist_sq_bounded(assigned[t].position, assigned[h as int].position);
                    lemma_transmit_bounds(
                        DATA_PACKET_SIZE_BITS as int,
                        dist_sq_spec(assigned[t].position, assigned[h as int].position),
                    );
                }
            }
            assert forall|p: int| 0 <= p < far.len() implies (#[trigger] far[p]) < formed_nodes.len() && !is_near(
                formed_nodes[far[p] as int],
            ) by {
                assert(formed(assigned, sel, a, far[p] as int, assigned.len() as int, formed_nodes[far[p] as int]));
            }
            assert forall|p: int| 0 <= p < near.len() implies (#[trigger] near[p]) < formed_nodes.len() && is_near(
                formed_nodes[near[p] as int],
            ) by {
                assert(formed(assigned, sel, a, near[p] as int, assigned.len() as int, formed_nodes[near[p] as int]));
            }
            assert(zones_wf(formed_nodes, far, near));
        }
        self.dissipate_cluster_head_energy(&mut simulator.nodes);
        proof {
            let fin = simulator.nodes@;
            assert forall|x: int| 0 <= x < fin.len() implies {
                &&& node_wf(#[trigger] fin[x], x)
                &&& fin[x].is_alive == begun[x].is_alive
                &&& fin[x].remaining_energy_pj <= n0[x].remaining_energy_pj
                &&& same_frame(n0[x], fin[x])
                &&& fin[x].is_cluster_head == selected_within(sel, x, sel.len() as int)
                &&& fin[x].is_eligible_for_ch == n0[x].is_eligible_for_ch
                &&& (!begun[x].is_alive ==> fin[x].remaining_energy_pj == n0[x].remaining_energy_pj)
            } by {
                lemma_dissipated_range(formed_nodes, far, near, x);
                assert(formed(assigned, sel, a, x, assigned.len() as int, formed_nodes[x]));
                assert(begins_round(n0[x], begun[x], false));
                assert(node_wf(n0[x], x));
                if !begun[x].is_alive {
                    if in_prefix(far, x, far.len() as int) {
                        let p = choose|p: int| 0 <= p < far.len() && #[trigger] far[p] as int == x;
                        assert(selected_within(sel, far[p] as int, sel.len() as int));
                        let c = choose|c: int| 0 <= c < sel.len() && #[trigger] sel[c] is Some && sel[c]->0 == far[p] as int;
                    }
                    if in_prefix(near, x, near.len() as int) {
                        let p = choose|p: int| 0 <= p < near.len() && #[trigger] near[p] as int == x;
                        assert(selected_within(sel, near[p] as int, sel.len() as int));
                        let c = choose|c: int| 0 <= c < sel.len() && #[trigger] sel[c] is Some && sel[c]->0 == near[p] as int;
                    }
                }
            }
            lemma_count_alive_same_flags(begun, fin);
            let v = flagged_all(n0, sel);
            assert forall|i: int| 0 <= i < assigned.len() implies {
                &&& same_frame(#[trigger] assigned[i], v[i])
                &&& assigned[i].is_alive == v[i].is_alive
                &&& assigned[i].is_cluster_head == v[i].is_cluster_head
                &&& assigned[i].remaining_energy_pj == n0[i].remaining_energy_pj
                &&& assigned[i].cluster_head_id is None
                &&& assigned[i].cluster_member_ids@.len() == 0
            } by {
                assert(begins_round(n0[i], begun[i], false));
            }
            assert forall|i: int| 0 <= i < formed_nodes.len() implies same_frame(#[trigger] formed_nodes[i], v[i]) by {
                assert(formed(assigned, sel, a, i, assigned.len() as int, formed_nodes[i]));
            }
            assert forall|x: int| 0 <= x < fin.len() implies {
                &&& (#[trigger] fin[x]).remaining_energy_pj == n0[x].remaining_energy_pj - zone_round_cost(
                    v,
                    sel,
                    a,
                    far,
                    near,
                    x,
                )
                &&& fin[x].cluster_head_id == if joins(v, sel, a, x) {
                    Some(head_of(sel, a, x))
                } else {
                    None
                }
                &&& fin[x].cluster_member_ids@ == joined_prefix(v, sel, a, x, v.len() as int)
            } by {
                lemma_joined_prefix_agree(assigned, v, sel, a, x, assigned.len() as int);
                assert(formed(assigned, sel, a, x, assigned.len() as int, formed_nodes[x]));
                assert(formed_nodes[x].cluster_member_ids@ =~= joined_prefix(v, sel, a, x, v.len() as int));
                lemma_relay_target_frame(formed_nodes, v, x, near);
                lemma_relays_into_agree(formed_nodes, v, far, near, x, far.len() as int);
                lemma_dissipated_range(formed_nodes, far, near, x);
                lemma_costs_bounded(formed_nodes, far, near, x, far.len() as int);
                assert(node_wf(fin[x], x));
                if joins(v, sel, a, x) {
                    let h = head_of(sel, a, x);
                    assert(same_frame(formed_nodes[h as int], v[h as int]));
                    assert(same_frame(assigned[h as int], v[h as int]));
                }
                let d = dissipated(formed_nodes, far, near, x, far.len() as int, near.len() as int);
                assert(fin[x].remaining_energy_pj == d);
                let members = joined_prefix(v, sel, a, x, v.len() as int).len();
                assert(formed_nodes[x].cluster_member_ids@.len() == members);
                assert(formed_nodes[x].remaining_energy_pj == n0[x].remaining_energy_pj - (if joins(v, sel, a, x) {
                    transmit_spec(
                        DATA_PACKET_SIZE_BITS as int,
                        dist_sq_spec(v[x].position, v[head_of(sel, a, x) as int].position),
                    )
                } else {
                    0
                }));
                assert(direct_head_cost(formed_nodes, x) == per_packet_spec() * members + transmit_spec(
                    DATA_PACKET_SIZE_BITS as int,
                    v[x].distance_sq_to_base_station as int,
                ));
                assert(relay_target(formed_nodes, x, near) == relay_target(v, x, near));
                if let Some(t) = relay_target(v, x, near) {
                    lemma_nearest_listed_in(v, x, near, near.len() as int);
                    let p = choose|p: int| 0 <= p < near.len() && near[p] == t;
                    assert(near[p] < formed_nodes.len());
                    assert(same_frame(formed_nodes[t as int], v[t as int]));
                }
                assert(far_cost(formed_nodes, x, near) == per_packet_spec() * members + match relay_target(v, x, near) {
                    Some(t) => transmit_spec(
                        DATA_PACKET_SIZE_BITS as int,
                        dist_sq_spec(v[x].position, v[t as int].position),
                    ),
                    None => transmit_spec(DATA_PACKET_SIZE_BITS as int, v[x].distance_sq_to_base_station as int),
                });
            }
        }
    }
}

} // verus!

verus! {

/// Number of heads a round asks for: `ceil(p * alive)`, with `p` in parts
/// per million.
pub open spec fn requested_heads(ppm: int, alive: int) -> int {
    (ppm * alive + 999_999) / 1_000_000
}

/// `desired` clamped to the number of nodes.
pub open spec fn head_count(desired: int, n: int) -> int {
    if desired > n {
        n
    } else {
        desired
    }
}

/// `z` with its head count set to `k`.
pub open spec fn with_head_count(z: Zcr, k: int) -> Zcr {
    Zcr { num_cluster_heads: k as usize, ..z }
}

impl Protocol for Zcr {
    open spec fn inv(&self) -> bool {
        self.zcr_wf()
    }

    /// With no alive node, or no head asked for, nothing changes. Otherwise
    /// `k = min(ceil(p * alive), nodes)` heads are asked for, and the round
    /// runs on a K-Means clustering of all nodes into `k` clusters.
    open spec fn round(&self, before: Simulator, after_self: Self, after: Simulator) -> bool {
        let alive = before.alive_node_count as int;
        let desired = requested_heads(self.cluster_head_probability_ppm as int, alive);
        if alive == 0 || desired == 0 {
            after_self == *self && after == before
        } else {
            let k = head_count(desired, before.nodes@.len() as int);
            let z = with_head_count(*self, k);
            exists|cs: Seq<Point>, a: Seq<usize>|
                #![trigger zcr_round(z, before, after_self, after, cs, a)]
                fit_result(before.nodes@, k, cs, a) && zcr_round(z, before, after_self, after, cs, a)
        }
    }

    /// One zone-based round: asks for `ceil(p * alive)` heads (a no-op when
    /// no node is alive), clusters all nodes with K-Means on that many
    /// clusters (never more than there are nodes), then runs the round on
    /// that clustering. Dead nodes take part in the clustering, so centroids
    /// follow the whole deployment; only alive nodes can become heads.
    fn run_round(&mut self, simulator: &mut Simulator) {
        if simulator.alive_node_count == 0 {
            return;
        }
        proof {
            crate::network::lemma_count_alive_le_len(simulator.nodes@);
        }
        let ppm = self.cluster_head_probability_ppm as u64;
        let alive = simulator.alive_node_count as u64;
        assert(ppm * alive <= 1_000_000 * 1_000_000) by (nonlinear_arith)
            requires ppm <= 1_000_000, alive <= 1_000_000;
        let desired = (ppm * alive + 999_999) / 1_000_000;
        if desired == 0 {
            return;
        }
        let k: usize = if desired as usize > simulator.nodes.len() {
            simulator.nodes.len()
        } else {
            desired as usize
        };
        self.num_cluster_heads = k;
        assert(*self == with_head_count(*old(self), k as int));
        assert(k as int == head_count(requested_heads(ppm as int, alive as int), simulator.nodes@.len() as int));
        let mut kmeans = KMeans::new(k);
        proof {
            assert forall|i: int| 0 <= i < positions_of(simulator.nodes@).len() implies (
            #[trigger] positions_of(simulator.nodes@)[i]).in_bounds() by {
                assert(node_wf(simulator.nodes@[i], i));
            }
        }
        kmeans.fit(&simulator.nodes);
        let ghost z = *self;
        let ghost before = *simulator;
        self.run_round_with_clustering(simulator, &kmeans.centroids, &kmeans.clusters);
        assert(zcr_round(z, before, *self, *simulator, kmeans.centroids@, kmeans.clusters@));
        assert(fit_result(before.nodes@, k as int, kmeans.centroids@, kmeans.clusters@));
    }

    fn name(&self) -> &'static str {
        "ZCR"
    }
}

} // verus!
