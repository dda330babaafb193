//! The baseline rotation-based election protocol: each eligible node elects
//! itself with a threshold probability that rises through a rotation cycle,
//! members join the nearest head, and heads send straight to the base station.
use vstd::prelude::*;
use crate::node::{Node, dist_sq, dist_sq_spec, INITIAL_NODE_ENERGY_PJ};
use crate::network::{
    MAX_NODES, CHARGE_MAX, ENERGY_FLOOR, nodes_wf, node_wf, same_frame, charge, with_energy, begin_round, begins_round,
    round_step, lemma_count_alive_same_flags, per_packet_spec, nearest_listed, direct_head_cost, in_prefix,
    lemma_nearest_listed_in, lemma_nearest_listed_frame, nearest_listed_node,
};
use crate::radio::{
    transmit_spec, transmit_energy, receive_energy, aggregation_energy, lemma_transmit_bounds,
    DATA_PACKET_SIZE_BITS,
};
use crate::simulator::{Simulator, Protocol};

verus! {

/// Scale of probabilities and of election draws: one million.
pub const PROBABILITY_SCALE: u64 = 1_000_000;

/// Rotation cycle length for probability `ppm` (parts per million):
/// `1 / p` rounded to the nearest integer.
pub open spec fn cycle_length_of(ppm: int) -> int {
    (2 * PROBABILITY_SCALE + ppm) / (2 * ppm)
}

/// Whether a node drawing `draw` (uniform in `0..PROBABILITY_SCALE`) is
/// elected at position `rmod` of the rotation cycle: the threshold is
/// `p / (1 - p * rmod)`, saturated to 1 once the denominator is no larger
/// than `p` (including when it is zero or negative).
pub open spec fn elected(ppm: int, rmod: int, draw: int) -> bool {
    let denom = PROBABILITY_SCALE - ppm * rmod;
    if denom <= ppm {
        true
    } else {
        draw * denom < ppm * PROBABILITY_SCALE
    }
}

/// Whether node `i` elects itself: alive, eligible, and its draw succeeds.
pub open spec fn elects(nodes: Seq<Node>, draws: Seq<u32>, ppm: int, rmod: int, i: int) -> bool {
    nodes[i].is_alive && nodes[i].is_eligible_for_ch && elected(ppm, rmod, draws[i] as int)
}

/// The indices among the first `m` nodes that elect themselves, in order.
pub open spec fn elected_prefix(nodes: Seq<Node>, draws: Seq<u32>, ppm: int, rmod: int, m: int) -> Seq<usize>
    decreases m,
{
    if m <= 0 {
        seq![]
    } else {
        let prev = elected_prefix(nodes, draws, ppm, rmod, m - 1);
        if elects(nodes, draws, ppm, rmod, m - 1) {
            prev.push((m - 1) as usize)
        } else {
            prev
        }
    }
}

/// With probability one, every draw elects: the threshold saturates to 1.
pub proof fn lemma_certain_election(rmod: int, draw: int)
    requires
        0 <= rmod,
    ensures
        elected(PROBABILITY_SCALE as int, rmod, draw),
        cycle_length_of(PROBABILITY_SCALE as int) == 1,
{
    assert(1_000_000 * rmod >= 0) by (nonlinear_arith)
        requires rmod >= 0;
    vstd::arithmetic::div_mod::lemma_fundamental_div_mod_converse(3_000_000, 2_000_000, 1, 1_000_000);
}

/// Whether node `j` joins a head: alive, not a head, and some head exists.
pub open spec fn joins_nearest(nodes: Seq<Node>, chs: Seq<usize>, j: int) -> bool {
    nodes[j].is_alive && !nodes[j].is_cluster_head && chs.len() > 0
}

/// The head node `j` joins: the nearest one, first listed on ties.
pub open spec fn nearest_head(nodes: Seq<Node>, chs: Seq<usize>, j: int) -> usize {
    nearest_listed(nodes, j, chs, chs.len() as int)->0
}

/// The nodes among the first `m` that join head `h`, in index order.
pub open spec fn joined_nearest(nodes: Seq<Node>, chs: Seq<usize>, h: int, m: int) -> Seq<usize>
    decreases m,
{
    if m <= 0 {
        seq![]
    } else {
        let prev = joined_nearest(nodes, chs, h, m - 1);
        if joins_nearest(nodes, chs, m - 1) && nearest_head(nodes, chs, m - 1) == h {
            prev.push((m - 1) as usize)
        } else {
            prev
        }
    }
}

/// Node `t` after cluster formation among the first `m` nodes (`o` before,
/// `n` after).
pub open spec fn joined_state(nodes: Seq<Node>, chs: Seq<usize>, t: int, m: int, n: Node) -> bool {
    let o = nodes[t];
    let joined = t < m && joins_nearest(nodes, chs, t);
    let h = nearest_head(nodes, chs, t);
    &&& same_frame(o, n)
    &&& n.is_alive == o.is_alive
    &&& n.is_cluster_head == o.is_cluster_head
    &&& n.is_eligible_for_ch == o.is_eligible_for_ch
    &&& n.cluster_head_id == if joined { Some(h) } else { o.cluster_head_id }
    &&& n.remaining_energy_pj == if joined {
        o.remaining_energy_pj - transmit_spec(
            DATA_PACKET_SIZE_BITS as int,
            dist_sq_spec(o.position, nodes[h as int].position),
        )
    } else {
        o.remaining_energy_pj as int
    }
    &&& n.cluster_member_ids@ == o.cluster_member_ids@ + joined_nearest(nodes, chs, t, m)
}

proof fn lemma_joined_nearest_len(nodes: Seq<Node>, chs: Seq<usize>, h: int, m: int)
    requires
        0 <= m,
    ensures
        joined_nearest(nodes, chs, h, m).len() <= m,
    decreases m,
{
    if m > 0 {
        lemma_joined_nearest_len(nodes, chs, h, m - 1);
    }
}

/// Protocol state of the rotation-based election.
pub struct Leach {
    /// Numerator of the current election threshold.
    pub election_threshold_num: u64,
    /// Denominator of the current election threshold (positive).
    pub election_threshold_den: u64,
    /// Cluster-head probability in parts per million, in `1..=1_000_000`.
    pub cluster_head_probability_ppm: u32,
    /// Rounds in one rotation cycle.
    pub cycle_length_rounds: usize,
}

impl Leach {
    /// The protocol's invariant.
    pub open spec fn leach_wf(&self) -> bool {
        &&& 1 <= self.cluster_head_probability_ppm <= PROBABILITY_SCALE
        &&& self.cycle_length_rounds == cycle_length_of(self.cluster_head_probability_ppm as int)
        &&& self.cycle_length_rounds >= 1
        &&& 0 < self.election_threshold_den <= PROBABILITY_SCALE
        &&& self.election_threshold_num <= PROBABILITY_SCALE
    }

    /// An election protocol with the given cluster-head probability (parts
    /// per million); `None` unless it lies in `(0, 1]`.
    pub fn new(cluster_head_probability_ppm: u32) -> (r: Option<Leach>)
        ensures
            r is Some <==> 1 <= cluster_head_probability_ppm <= PROBABILITY_SCALE,
            r matches Some(l) ==> {
                &&& l.leach_wf()
                &&& l.cluster_head_probability_ppm == cluster_head_probability_ppm
                &&& l.election_threshold_num == 0
            },
    {
        if cluster_head_probability_ppm == 0 || cluster_head_probability_ppm as u64 > PROBABILITY_SCALE {
            return None;
        }
        let ppm = cluster_head_probability_ppm as u64;
        let cycle = (2 * PROBABILITY_SCALE + ppm) / (2 * ppm);
        assert(1 <= cycle <= 2_000_001) by (nonlinear_arith)
            requires 1 <= ppm <= 1_000_000, cycle == (2_000_000 + ppm) / (2 * ppm);
        Some(Leach {
            election_threshold_num: 0,
            election_threshold_den: 1,
            cluster_head_probability_ppm,
            cycle_length_rounds: cycle as usize,
        })
    }

    /// Sets the election threshold for `current_round`:
    /// `min(1, p / (1 - p * (current_round mod cycle)))`.
    pub fn update_election_threshold(&mut self, current_round: usize)
        requires
            old(self).leach_wf(),
        ensures
            final(self).leach_wf(),
            final(self).cluster_head_probability_ppm == old(self).cluster_head_probability_ppm,
            final(self).cycle_length_rounds == old(self).cycle_length_rounds,
            forall|draw: int|
                0 <= draw < PROBABILITY_SCALE ==> (draw * final(self).election_threshold_den
                    < final(self).election_threshold_num * PROBABILITY_SCALE <==> #[trigger] elected(
                    old(self).cluster_head_probability_ppm as int,
                    current_round as int % old(self).cycle_length_rounds as int,
                    draw,
                )),
    {
        let ppm = self.cluster_head_probability_ppm as u64;
        let cycle = self.cycle_length_rounds as u64;
        let rmod = (current_round % self.cycle_length_rounds) as u64;
        assert(ppm * rmod <= 2_000_000) by (nonlinear_arith)
            requires
                1 <= ppm <= 1_000_000,
                rmod < cycle,
                cycle == (2_000_000 + ppm) / (2 * ppm),
        ;
        let product = ppm * rmod;
        let ghost r = current_round as int % old(self).cycle_length_rounds as int;
        assert(rmod == r);
        if product + ppm >= PROBABILITY_SCALE {
            self.election_threshold_num = 1;
            self.election_threshold_den = 1;
        } else {
            self.election_threshold_num = ppm;
            self.election_threshold_den = PROBABILITY_SCALE - product;
        }
        assert forall|draw: int| 0 <= draw < PROBABILITY_SCALE implies (draw * self.election_threshold_den
            < self.election_threshold_num * PROBABILITY_SCALE <==> #[trigger] elected(ppm as int, r, draw)) by {
            assert(product == ppm * r);
        }
    }

    /// Election phase: every alive, eligible node whose draw passes the
    /// threshold becomes a head and loses its eligibility until the next
    /// cycle. Returns the heads in index order.
    fn elect_cluster_heads(&self, nodes: &mut Vec<Node>, draws: &Vec<u32>, Ghost(rmod): Ghost<int>) -> (r: Vec<usize>)
        requires
            self.leach_wf(),
            draws@.len() == old(nodes)@.len(),
            forall|i: int| 0 <= i < draws@.len() ==> #[trigger] draws@[i] < PROBABILITY_SCALE,
            forall|draw: int|
                0 <= draw < PROBABILITY_SCALE ==> (draw * self.election_threshold_den
                    < self.election_threshold_num * PROBABILITY_SCALE <==> #[trigger] elected(
                    self.cluster_head_probability_ppm as int,
                    rmod,
                    draw,
                )),
        ensures
            r@ == elected_prefix(old(nodes)@, draws@, self.cluster_head_probability_ppm as int, rmod, old(nodes)@.len() as int),
            final(nodes)@.len() == old(nodes)@.len(),
            forall|i: int|
                0 <= i < old(nodes)@.len() ==> {
                    let o = old(nodes)@[i];
                    let n = #[trigger] final(nodes)@[i];
                    let e = elects(old(nodes)@, draws@, self.cluster_head_probability_ppm as int, rmod, i);
                    &&& n.is_cluster_head == (o.is_cluster_head || e)
                    &&& n.is_eligible_for_ch == (o.is_eligible_for_ch && !e)
                    &&& same_frame(o, n)
                    &&& n.is_alive == o.is_alive
                    &&& n.remaining_energy_pj == o.remaining_energy_pj
                    &&& n.cluster_head_id == o.cluster_head_id
                    &&& n.cluster_member_ids == o.cluster_member_ids
                },
    {
        let ghost start = nodes@;
        let ghost ppm = self.cluster_head_probability_ppm as int;
        let mut heads: Vec<usize> = Vec::new();
        let mut i: usize = 0;
        while i < nodes.len()
            invariant
                i <= start.len(),
                nodes@.len() == start.len(),
                draws@.len() == start.len(),
                ppm == self.cluster_head_probability_ppm as int,
                self.leach_wf(),
                forall|t: int| 0 <= t < draws@.len() ==> #[trigger] draws@[t] < PROBABILITY_SCALE,
                forall|draw: int|
                    0 <= draw < PROBABILITY_SCALE ==> (draw * self.election_threshold_den
                        < self.election_threshold_num * PROBABILITY_SCALE <==> #[trigger] elected(ppm, rmod, draw)),
                heads@ == elected_prefix(start, draws@, ppm, rmod, i as int),
                forall|t: int|
                    0 <= t < start.len() ==> {
                        let o = start[t];
                        let n = #[trigger] nodes@[t];
                        let e = t < i && elects(start, draws@, ppm, rmod, t);
                        &&& n.is_cluster_head == (o.is_cluster_head || e)
                        &&& n.is_eligible_for_ch == (o.is_eligible_for_ch && !e)
                        &&& same_frame(o, n)
                        &&& n.is_alive == o.is_alive
                        &&& n.remaining_energy_pj == o.remaining_energy_pj
                        &&& n.cluster_head_id == o.cluster_head_id
                        &&& n.cluster_member_ids == o.cluster_member_ids
                    },
            decreases start.len() - i,
        {
            let draw = draws[i] as u64;
            assert(draw * self.election_threshold_den <= 1_000_000 * 1_000_000) by (nonlinear_arith)
                requires draw < 1_000_000, self.election_threshold_den <= 1_000_000;
            assert(self.election_threshold_num * PROBABILITY_SCALE <= 1_000_000 * 1_000_000) by (nonlinear_arith)
                requires self.election_threshold_num <= 1_000_000;
            let passes = draw * self.election_threshold_den < self.election_threshold_num * PROBABILITY_SCALE;
            assert(passes == elected(ppm, rmod, draws@[i as int] as int));
            if passes && nodes[i].is_alive && nodes[i].is_eligible_for_ch {
                nodes[i].is_cluster_head = true;
                nodes[i].is_eligible_for_ch = false;
                heads.push(i);
            }
            i = i + 1;
        }
        heads
    }
}

} // verus!

verus! {

impl Leach {
    /// Cluster formation: every alive node that is not a head joins the
    /// nearest head (first listed on ties), records it, registers with it, and
    /// pays the transmission of one packet to it. With no head, nothing
    /// changes.
    pub fn form_clusters(nodes: &mut Vec<Node>, cluster_head_ids: &Vec<usize>)
        requires
            nodes_wf(old(nodes)@),
            forall|p: int|
                0 <= p < cluster_head_ids@.len() ==> (#[trigger] cluster_head_ids@[p]) < old(nodes)@.len()
                    && old(nodes)@[cluster_head_ids@[p] as int].is_cluster_head,
        ensures
            final(nodes)@.len() == old(nodes)@.len(),
            forall|t: int|
                0 <= t < old(nodes)@.len() ==> joined_state(
                    old(nodes)@,
                    cluster_head_ids@,
                    t,
                    old(nodes)@.len() as int,
                    #[trigger] final(nodes)@[t],
                ),
    {
        let ghost start = nodes@;
        let ghost chs = cluster_head_ids@;
        let mut i: usize = 0;
        while i < nodes.len()
            invariant
                i <= start.len(),
                nodes@.len() == start.len(),
                chs == cluster_head_ids@,
                nodes_wf(start),
                forall|p: int| 0 <= p < chs.len() ==> (#[trigger] chs[p]) < start.len() && start[chs[p] as int].is_cluster_head,
                forall|t: int| 0 <= t < start.len() ==> joined_state(start, chs, t, i as int, #[trigger] nodes@[t]),
            decreases start.len() - i,
        {
            assert(joined_state(start, chs, i as int, i as int, nodes@[i as int]));
            if nodes[i].is_alive && !nodes[i].is_cluster_head {
                proof {
                    assert forall|t: int| 0 <= t < nodes@.len() implies (#[trigger] nodes@[t]).position.in_bounds() by {
                        assert(joined_state(start, chs, t, i as int, nodes@[t]));
                        assert(node_wf(start[t], t));
                    }
                    assert forall|t: int| 0 <= t < start.len() implies same_frame(#[trigger] start[t], nodes@[t]) by {
                        assert(joined_state(start, chs, t, i as int, nodes@[t]));
                    }
                    lemma_nearest_listed_frame(start, nodes@, i as int, chs, chs.len() as int);
                }
                let nearest = nearest_listed_node(nodes, i, cluster_head_ids);
                proof {
                    lemma_nearest_listed_in(start, i as int, chs, chs.len() as int);
                }
                match nearest {
                    Some(h) => {
                        proof {
                            let p = choose|p: int| 0 <= p < chs.len() && chs[p] == h;
                            assert(chs[p] < start.len());
                        }
                        assert(joined_state(start, chs, h as int, i as int, nodes@[h as int]));
                        assert(h != i);
                        let ghost before = nodes@;
                        nodes[i].cluster_head_id = Some(h);
                        nodes[h].cluster_member_ids.push(i);
                        proof {
                            crate::node::lemma_dist_sq_bounded(start[i as int].position, start[h as int].position);
                            assert(node_wf(start[i as int], i as int));
                            assert(node_wf(start[h as int], h as int));
                        }
                        let d = dist_sq(nodes[i].position, nodes[h].position);
                        let cost = transmit_energy(DATA_PACKET_SIZE_BITS, d);
                        charge(nodes, i, cost);
                        proof {
                            assert forall|t: int| 0 <= t < start.len() implies joined_state(
                                start,
                                chs,
                                t,
                                i as int + 1,
                                #[trigger] nodes@[t],
                            ) by {
                                assert(joined_state(start, chs, t, i as int, before[t]));
                                if t == h as int {
                                    assert(joined_nearest(start, chs, t, i as int + 1) =~= joined_nearest(
                                        start,
                                        chs,
                                        t,
                                        i as int,
                                    ).push(i));
                                }
                            }
                        }
                    },
                    None => {
                        proof {
                            assert forall|t: int| 0 <= t < start.len() implies joined_state(
                                start,
                                chs,
                                t,
                                i as int + 1,
                                #[trigger] nodes@[t],
                            ) by {}
                        }
                    },
                }
            } else {
                proof {
                    assert forall|t: int| 0 <= t < start.len() implies joined_state(
                        start,
                        chs,
                        t,
                        i as int + 1,
                        #[trigger] nodes@[t],
                    ) by {}
                }
            }
            i = i + 1;
        }
    }
}

} // verus!

verus! {

/// Energy of node `x` once the first `q` listed heads have paid (an alive
/// listed head pays its members' packets and one transmission to the base
/// station).
pub open spec fn heads_paid(nodes: Seq<Node>, chs: Seq<usize>, x: int, q: int) -> int {
    nodes[x].remaining_energy_pj - if in_prefix(chs, x, q) && nodes[x].is_alive {
        direct_head_cost(nodes, x)
    } else {
        0
    }
}

proof fn lemma_direct_cost_bounded(nodes: Seq<Node>, x: int)
    requires
        nodes_wf(nodes),
        0 <= x < nodes.len(),
        nodes[x].cluster_member_ids@.len() <= MAX_NODES,
    ensures
        0 <= direct_head_cost(nodes, x) <= CHARGE_MAX,
        0 <= per_packet_spec() * nodes[x].cluster_member_ids@.len() <= 300_000_000_000_000,
{
    let n = nodes[x];
    assert(node_wf(n, x));
    crate::node::lemma_dist_sq_bounded(n.position, crate::node::base_station());
    lemma_transmit_bounds(DATA_PACKET_SIZE_BITS as int, n.distance_sq_to_base_station as int);
    let k = n.cluster_member_ids@.len() as int;
    assert(per_packet_spec() == 220_000_000);
    assert(0 <= 220_000_000 * k <= 220_000_000 * 1_000_000) by (nonlinear_arith)
        requires 0 <= k <= 1_000_000;
}

proof fn lemma_heads_step(nodes: Seq<Node>, chs: Seq<usize>, q: int, x: int)
    requires
        0 <= q < chs.len(),
        0 <= x < nodes.len(),
        forall|p: int, r: int| 0 <= p < r < chs.len() ==> chs[p] != chs[r],
    ensures
        heads_paid(nodes, chs, x, q + 1) == heads_paid(nodes, chs, x, q) - if x == chs[q] as int
            && nodes[x].is_alive {
            direct_head_cost(nodes, x)
        } else {
            0
        },
        x == chs[q] as int ==> heads_paid(nodes, chs, x, q) == nodes[x].remaining_energy_pj,
{
    if x == chs[q] as int {
        assert(in_prefix(chs, x, q + 1));
        if in_prefix(chs, x, q) {
            let p = choose|p: int| 0 <= p < q && #[trigger] chs[p] as int == x;
            assert(chs[p] != chs[q]);
        }
    } else {
        if in_prefix(chs, x, q + 1) {
            let p = choose|p: int| 0 <= p < q + 1 && #[trigger] chs[p] as int == x;
            assert(in_prefix(chs, x, q));
        }
        if in_prefix(chs, x, q) {
            let p = choose|p: int| 0 <= p < q && #[trigger] chs[p] as int == x;
            assert(in_prefix(chs, x, q + 1));
        }
    }
}

impl Leach {
    /// Head phase: each alive head pays for receiving and aggregating its
    /// members' packets, then for one aggregated transmission to the base
    /// station.
    pub fn dissipate_cluster_head_energy(nodes: &mut Vec<Node>, cluster_head_ids: &Vec<usize>)
        requires
            nodes_wf(old(nodes)@),
            forall|p: int| 0 <= p < cluster_head_ids@.len() ==> (#[trigger] cluster_head_ids@[p]) < old(nodes)@.len(),
            forall|p: int, r: int| 0 <= p < r < cluster_head_ids@.len() ==> cluster_head_ids@[p] != cluster_head_ids@[r],
            forall|i: int| 0 <= i < old(nodes)@.len() ==> (#[trigger] old(nodes)@[i]).cluster_member_ids@.len() <= MAX_NODES,
        ensures
            final(nodes)@.len() == old(nodes)@.len(),
            forall|x: int|
                0 <= x < old(nodes)@.len() ==> #[trigger] final(nodes)@[x] == with_energy(
                    old(nodes)@[x],
                    heads_paid(old(nodes)@, cluster_head_ids@, x, cluster_head_ids@.len() as int),
                ),
    {
        let ghost start = nodes@;
        let ghost chs = cluster_head_ids@;
        let per_packet: u128 = receive_energy(DATA_PACKET_SIZE_BITS) + aggregation_energy(DATA_PACKET_SIZE_BITS);
        let mut q: usize = 0;
        while q < cluster_head_ids.len()
            invariant
                q <= chs.len(),
                chs == cluster_head_ids@,
                per_packet == per_packet_spec(),
                nodes_wf(start),
                forall|p: int| 0 <= p < chs.len() ==> (#[trigger] chs[p]) < start.len(),
                forall|p: int, r: int| 0 <= p < r < chs.len() ==> chs[p] != chs[r],
                forall|i: int| 0 <= i < start.len() ==> (#[trigger] start[i]).cluster_member_ids@.len() <= MAX_NODES,
                nodes@.len() == start.len(),
                forall|x: int|
                    0 <= x < start.len() ==> #[trigger] nodes@[x] == with_energy(
                        start[x],
                        heads_paid(start, chs, x, q as int),
                    ),
            decreases chs.len() - q,
        {
            let t = cluster_head_ids[q];
            let ghost mid0 = nodes@;
            proof {
                lemma_direct_cost_bounded(start, t as int);
                lemma_heads_step(start, chs, q as int, t as int);
                assert(node_wf(start[t as int], t as int));
                assert(mid0[t as int] == with_energy(start[t as int], heads_paid(start, chs, t as int, q as int)));
                crate::node::lemma_dist_sq_bounded(start[t as int].position, crate::node::base_station());
            }
            if nodes[t].is_alive {
                let member_count = nodes[t].cluster_member_ids.len() as u128;
                charge(nodes, t, per_packet * member_count);
                let d = nodes[t].distance_sq_to_base_station;
                charge(nodes, t, transmit_energy(DATA_PACKET_SIZE_BITS, d));
            }
            proof {
                assert forall|x: int| 0 <= x < start.len() implies #[trigger] nodes@[x] == with_energy(
                    start[x],
                    heads_paid(start, chs, x, q as int + 1),
                ) by {
                    lemma_heads_step(start, chs, q as int, x);
                    assert(mid0[x] == with_energy(start[x], heads_paid(start, chs, x, q as int)));
                }
            }
            q = q + 1;
        }
    }
}

} // verus!

verus! {

proof fn lemma_elected_prefix(nodes: Seq<Node>, draws: Seq<u32>, ppm: int, rmod: int, m: int)
    requires
        0 <= m <= nodes.len(),
        nodes.len() <= MAX_NODES,
    ensures
        elected_prefix(nodes, draws, ppm, rmod, m).len() <= m,
        forall|p: int|
            0 <= p < elected_prefix(nodes, draws, ppm, rmod, m).len() ==> {
                let i = #[trigger] elected_prefix(nodes, draws, ppm, rmod, m)[p];
                &&& i < m
                &&& elects(nodes, draws, ppm, rmod, i as int)
            },
        forall|p: int, r: int|
            0 <= p < r < elected_prefix(nodes, draws, ppm, rmod, m).len() ==> elected_prefix(
                nodes,
                draws,
                ppm,
                rmod,
                m,
            )[p] < elected_prefix(nodes, draws, ppm, rmod, m)[r],
    decreases m,
{
    if m > 0 {
        lemma_elected_prefix(nodes, draws, ppm, rmod, m - 1);
    }
}

/// Whether `n` is node `o` after the election phase of a round at position
/// `rmod` of the rotation cycle, with `draw` its election draw.
pub open spec fn elected_state(o: Node, n: Node, new_cycle: bool, ppm: int, rmod: int, draw: int) -> bool {
    let alive = o.is_alive && o.remaining_energy_pj > 0;
    let eligible = new_cycle || o.is_eligible_for_ch;
    let head = alive && eligible && elected(ppm, rmod, draw);
    &&& n.is_alive == alive
    &&& n.is_cluster_head == head
    &&& n.is_eligible_for_ch == (eligible && !head)
}

/// With probability one, every node that is alive and eligible once the
/// round has begun becomes a cluster head, whatever its draw.
pub proof fn lemma_certain_probability_elects_all(
    o: Node,
    n: Node,
    new_cycle: bool,
    rmod: int,
    draw: int,
)
    requires
        0 <= rmod,
        elected_state(o, n, new_cycle, PROBABILITY_SCALE as int, rmod, draw),
    ensures
        n.is_cluster_head == (n.is_alive && (new_cycle || o.is_eligible_for_ch)),
{
    lemma_certain_election(rmod, draw);
}

/// Node `o` once the round has begun: transient fields cleared,
/// eligibility restored when `new_cycle`, retired if its energy is spent.
pub open spec fn begun_node(o: Node, new_cycle: bool) -> Node {
    Node {
        is_alive: o.is_alive && o.remaining_energy_pj > 0,
        is_cluster_head: false,
        is_eligible_for_ch: new_cycle || o.is_eligible_for_ch,
        cluster_head_id: None,
        ..o
    }
}

/// Node `o` after the election phase, with `draw` its election draw.
pub open spec fn voted_node(o: Node, new_cycle: bool, ppm: int, rmod: int, draw: int) -> Node {
    let b = begun_node(o, new_cycle);
    let head = b.is_alive && b.is_eligible_for_ch && elected(ppm, rmod, draw);
    Node { is_cluster_head: head, is_eligible_for_ch: b.is_eligible_for_ch && !head, ..b }
}

/// Every node after the election phase.
pub open spec fn voted_all(s: Seq<Node>, new_cycle: bool, ppm: int, rmod: int, draws: Seq<u32>) -> Seq<Node> {
    Seq::new(s.len(), |i: int| voted_node(s[i], new_cycle, ppm, rmod, draws[i] as int))
}

/// The heads a round elects, in index order.
pub open spec fn round_election(s: Seq<Node>, new_cycle: bool, ppm: int, rmod: int, draws: Seq<u32>) -> Seq<usize> {
    elected_prefix(Seq::new(s.len(), |i: int| begun_node(s[i], new_cycle)), draws, ppm, rmod, s.len() as int)
}

/// What node `x` spends in a round whose election gave `v` and heads `chs`:
/// a member sends one packet to its head; an alive head receives and
/// aggregates its members' packets and sends one packet to the base station.
pub open spec fn round_cost(v: Seq<Node>, chs: Seq<usize>, x: int) -> int {
    (if joins_nearest(v, chs, x) {
        transmit_spec(
            DATA_PACKET_SIZE_BITS as int,
            dist_sq_spec(v[x].position, v[nearest_head(v, chs, x) as int].position),
        )
    } else {
        0
    }) + (if in_prefix(chs, x, chs.len() as int) && v[x].is_alive {
        per_packet_spec() * joined_nearest(v, chs, x, v.len() as int).len() + transmit_spec(
            DATA_PACKET_SIZE_BITS as int,
            v[x].distance_sq_to_base_station as int,
        )
    } else {
        0
    })
}

proof fn lemma_elected_prefix_agree(n1: Seq<Node>, n2: Seq<Node>, draws: Seq<u32>, ppm: int, rmod: int, m: int)
    requires
        n1.len() == n2.len(),
        0 <= m <= n1.len(),
        forall|i: int|
            0 <= i < n1.len() ==> (#[trigger] n1[i]).is_alive == n2[i].is_alive && n1[i].is_eligible_for_ch
                == n2[i].is_eligible_for_ch,
    ensures
        elected_prefix(n1, draws, ppm, rmod, m) == elected_prefix(n2, draws, ppm, rmod, m),
    decreases m,
{
    if m > 0 {
        lemma_elected_prefix_agree(n1, n2, draws, ppm, rmod, m - 1);
        assert(n1[m - 1].is_alive == n2[m - 1].is_alive);
    }
}

proof fn lemma_joined_agree(n1: Seq<Node>, n2: Seq<Node>, chs: Seq<usize>, h: int, m: int)
    requires
        n1.len() == n2.len(),
        0 <= m <= n1.len(),
        forall|p: int| 0 <= p < chs.len() ==> (#[trigger] chs[p]) < n1.len(),
        forall|i: int|
            0 <= i < n1.len() ==> {
                &&& same_frame(#[trigger] n1[i], n2[i])
                &&& n1[i].is_alive == n2[i].is_alive
                &&& n1[i].is_cluster_head == n2[i].is_cluster_head
            },
    ensures
        joined_nearest(n1, chs, h, m) == joined_nearest(n2, chs, h, m),
        forall|j: int|
            0 <= j < n1.len() ==> joins_nearest(n1, chs, j) == joins_nearest(n2, chs, j) && #[trigger] nearest_head(
                n1,
                chs,
                j,
            ) == nearest_head(n2, chs, j),
    decreases m,
{
    assert forall|j: int| 0 <= j < n1.len() implies joins_nearest(n1, chs, j) == joins_nearest(n2, chs, j)
        && #[trigger] nearest_head(n1, chs, j) == nearest_head(n2, chs, j) by {
        assert(n1[j].is_alive == n2[j].is_alive);
        lemma_nearest_listed_frame(n1, n2, j, chs, chs.len() as int);
    }
    if m > 0 {
        lemma_joined_agree(n1, n2, chs, h, m - 1);
    }
}

/// One election round with draws `draws` takes protocol `l` and simulator
/// `before` to `l2` and `after`: the simulator stays well formed, depleted
/// nodes retire, heads are elected as `elected_state` says, and every node
/// pays `round_cost`, with its head and members as the nearest-head rule gives.
pub open spec fn leach_round(l: Leach, before: Simulator, l2: Leach, after: Simulator, draws: Seq<u32>) -> bool {
    let nc = before.current_round as int % l.cycle_length_rounds as int == 0;
    let ppm = l.cluster_head_probability_ppm as int;
    let rmod = before.current_round as int % l.cycle_length_rounds as int;
    let v = voted_all(before.nodes@, nc, ppm, rmod, draws);
    let chs = round_election(before.nodes@, nc, ppm, rmod, draws);
    &&& l2.leach_wf()
    &&& l2.cluster_head_probability_ppm == l.cluster_head_probability_ppm
    &&& l2.cycle_length_rounds == l.cycle_length_rounds
    &&& after.wf()
    &&& round_step(before.nodes@, after.nodes@)
    &&& after.current_round == before.current_round
    &&& forall|i: int|
        0 <= i < before.nodes@.len() && !(before.nodes@[i].is_alive && before.nodes@[i].remaining_energy_pj > 0)
            ==> (#[trigger] after.nodes@[i]).remaining_energy_pj == before.nodes@[i].remaining_energy_pj
    &&& forall|i: int|
        0 <= i < before.nodes@.len() ==> elected_state(
            before.nodes@[i],
            #[trigger] after.nodes@[i],
            nc,
            ppm,
            rmod,
            draws[i] as int,
        )
    &&& forall|x: int|
        0 <= x < before.nodes@.len() ==> {
            &&& (#[trigger] after.nodes@[x]).remaining_energy_pj == before.nodes@[x].remaining_energy_pj
                - round_cost(v, chs, x)
            &&& after.nodes@[x].cluster_head_id == if joins_nearest(v, chs, x) {
                Some(nearest_head(v, chs, x))
            } else {
                None
            }
            &&& after.nodes@[x].cluster_member_ids@ == joined_nearest(v, chs, x, v.len() as int)
        }
}

/// Draws that can drive an election round: one per node, each below
/// `PROBABILITY_SCALE`.
pub open spec fn valid_draws(draws: Seq<u32>, n: int) -> bool {
    draws.len() == n && forall|i: int| 0 <= i < n ==> #[trigger] draws[i] < PROBABILITY_SCALE
}

impl Leach {
    /// One round with the given election draws (one per node, uniform in
    /// `0..PROBABILITY_SCALE`): set the threshold, clear and retire nodes
    /// (restoring eligibility when a cycle starts), elect heads, form the
    /// clusters and charge the heads.
    pub fn run_round_with_draws(&mut self, simulator: &mut Simulator, draws: &Vec<u32>)
        requires
            old(self).leach_wf(),
            old(simulator).wf(),
            draws@.len() == old(simulator).nodes@.len(),
            forall|i: int| 0 <= i < draws@.len() ==> #[trigger] draws@[i] < PROBABILITY_SCALE,
        ensures
            leach_round(*old(self), *old(simulator), *final(self), *final(simulator), draws@),
    {
        let ghost n0 = simulator.nodes@;
        let ghost ppm = self.cluster_head_probability_ppm as int;
        let ghost rmod = simulator.current_round as int % self.cycle_length_rounds as int;
        self.update_election_threshold(simulator.current_round);
        let new_cycle = simulator.current_round % self.cycle_length_rounds == 0;
        begin_round(&mut simulator.nodes, &mut simulator.alive_node_count, new_cycle);
        let ghost begun = simulator.nodes@;
        let heads = self.elect_cluster_heads(&mut simulator.nodes, draws, Ghost(rmod));
        let ghost voted = simulator.nodes@;
        let ghost chs = heads@;
        proof {
            lemma_elected_prefix(begun, draws@, ppm, rmod, begun.len() as int);
            assert forall|i: int| 0 <= i < voted.len() implies node_wf(#[trigger] voted[i], i) by {
                assert(begins_round(n0[i], begun[i], new_cycle));
                assert(node_wf(n0[i], i));
            }
            assert forall|p: int| 0 <= p < chs.len() implies (#[trigger] chs[p]) < voted.len()
                && voted[chs[p] as int].is_cluster_head by {}
        }
        Leach::form_clusters(&mut simulator.nodes, &heads);
        let ghost formed_nodes = simulator.nodes@;
        proof {
            assert forall|t: int| 0 <= t < voted.len() implies {
                &&& node_wf(#[trigger] formed_nodes[t], t)
                &&& formed_nodes[t].cluster_member_ids@.len() <= MAX_NODES
                &&& formed_nodes[t].is_alive == begun[t].is_alive
                &&& formed_nodes[t].is_cluster_head == voted[t].is_cluster_head
                &&& formed_nodes[t].is_eligible_for_ch == voted[t].is_eligible_for_ch
                &&& (begun[t].is_alive ==> formed_nodes[t].remaining_energy_pj >= -CHARGE_MAX)
                &&& (!begun[t].is_alive ==> formed_nodes[t].remaining_energy_pj == begun[t].remaining_energy_pj)
                &&& formed_nodes[t].remaining_energy_pj <= begun[t].remaining_energy_pj
            } by {
                assert(joined_state(voted, chs, t, voted.len() as int, formed_nodes[t]));
                assert(node_wf(voted[t], t));
                assert(begins_round(n0[t], begun[t], new_cycle));
                assert(begun[t].is_alive ==> begun[t].remaining_energy_pj > 0);
                lemma_joined_nearest_len(voted, chs, t, voted.len() as int);
                if joins_nearest(voted, chs, t) {
                    lemma_nearest_listed_in(voted, t, chs, chs.len() as int);
                    let h = nearest_head(voted, chs, t);
                    let p = choose|p: int| 0 <= p < chs.len() && chs[p] == h;
                    assert(chs[p] < voted.len());
                    assert(node_wf(voted[h as int], h as int));
                    crate::node::lemma_dist_sq_bounded(voted[t].position, voted[h as int].position);
                    lemma_transmit_bounds(
                        DATA_PACKET_SIZE_BITS as int,
                        dist_sq_spec(voted[t].position, voted[h as int].position),
                    );
                }
            }
            assert forall|p: int, r: int| 0 <= p < r < chs.len() implies chs[p] != chs[r] by {}
        }
        Leach::dissipate_cluster_head_energy(&mut simulator.nodes, &heads);
        proof {
            let fin = simulator.nodes@;
            assert forall|x: int| 0 <= x < fin.len() implies {
                &&& node_wf(#[trigger] fin[x], x)
                &&& fin[x].is_alive == begun[x].is_alive
                &&& fin[x].remaining_energy_pj <= n0[x].remaining_energy_pj
                &&& same_frame(n0[x], fin[x])
                &&& elected_state(n0[x], fin[x], new_cycle, ppm, rmod, draws@[x] as int)
                &&& (!begun[x].is_alive ==> fin[x].remaining_energy_pj == n0[x].remaining_energy_pj)
            } by {
                assert(begins_round(n0[x], begun[x], new_cycle));
                assert(node_wf(n0[x], x));
                if in_prefix(chs, x, chs.len() as int) && formed_nodes[x].is_alive {
                    lemma_direct_cost_bounded(formed_nodes, x);
                }
            }
            lemma_count_alive_same_flags(begun, fin);
            let v = voted_all(n0, new_cycle, ppm, rmod, draws@);
            let bg = Seq::new(n0.len(), |i: int| begun_node(n0[i], new_cycle));
            assert forall|i: int| 0 <= i < begun.len() implies (#[trigger] begun[i]).is_alive == bg[i].is_alive
                && begun[i].is_eligible_for_ch == bg[i].is_eligible_for_ch by {
                assert(begins_round(n0[i], begun[i], new_cycle));
            }
            lemma_elected_prefix_agree(begun, bg, draws@, ppm, rmod, begun.len() as int);
            assert(chs == round_election(n0, new_cycle, ppm, rmod, draws@));
            assert forall|i: int| 0 <= i < voted.len() implies {
                &&& same_frame(#[trigger] voted[i], v[i])
                &&& voted[i].is_alive == v[i].is_alive
                &&& voted[i].is_cluster_head == v[i].is_cluster_head
                &&& voted[i].remaining_energy_pj == n0[i].remaining_energy_pj
                &&& voted[i].cluster_head_id is None
                &&& voted[i].cluster_member_ids@.len() == 0
            } by {
                assert(begins_round(n0[i], begun[i], new_cycle));
            }
            assert forall|x: int| 0 <= x < fin.len() implies {
                &&& (#[trigger] fin[x]).remaining_energy_pj == n0[x].remaining_energy_pj - round_cost(v, chs, x)
                &&& fin[x].cluster_head_id == if joins_nearest(v, chs, x) {
                    Some(nearest_head(v, chs, x))
                } else {
                    None
                }
                &&& fin[x].cluster_member_ids@ == joined_nearest(v, chs, x, v.len() as int)
            } by {
                lemma_joined_agree(voted, v, chs, x, voted.len() as int);
                assert(joined_state(voted, chs, x, voted.len() as int, formed_nodes[x]));
                assert(fin[x] == with_energy(formed_nodes[x], heads_paid(formed_nodes, chs, x, chs.len() as int)));
                assert(node_wf(fin[x], x));
                if joins_nearest(v, chs, x) {
                    let h = nearest_head(v, chs, x);
                    assert(same_frame(voted[h as int], v[h as int])) by {
                        lemma_nearest_listed_in(voted, x, chs, chs.len() as int);
                        let p = choose|p: int| 0 <= p < chs.len() && chs[p] == nearest_head(voted, chs, x);
                        assert(chs[p] < voted.len());
                    }
                }
                assert(formed_nodes[x].cluster_member_ids@ =~= joined_nearest(v, chs, x, v.len() as int));
                assert(node_wf(formed_nodes[x], x));
                if in_prefix(chs, x, chs.len() as int) && formed_nodes[x].is_alive {
                    lemma_direct_cost_bounded(formed_nodes, x);
                }
                let hp = heads_paid(formed_nodes, chs, x, chs.len() as int);
                assert(-ENERGY_FLOOR <= hp <= INITIAL_NODE_ENERGY_PJ);
                assert(fin[x].remaining_energy_pj == hp);
                assert(formed_nodes[x].remaining_energy_pj == n0[x].remaining_energy_pj - (if joins_nearest(v, chs, x) {
                    transmit_spec(
                        DATA_PACKET_SIZE_BITS as int,
                        dist_sq_spec(v[x].position, v[nearest_head(v, chs, x) as int].position),
                    )
                } else {
                    0
                }));
                assert(fin[x].cluster_head_id == formed_nodes[x].cluster_head_id);
                assert(fin[x].cluster_member_ids == formed_nodes[x].cluster_member_ids);
            }
        }
    }
}

impl Protocol for Leach {
    open spec fn inv(&self) -> bool {
        self.leach_wf()
    }

    /// Some valid draws drive the round.
    open spec fn round(&self, before: Simulator, after_self: Self, after: Simulator) -> bool {
        exists|draws: Seq<u32>|
            #![trigger leach_round(*self, before, after_self, after, draws)]
            valid_draws(draws, before.nodes@.len() as int) && leach_round(*self, before, after_self, after, draws)
    }

    /// One election round with a fresh uniform draw for every node.
    fn run_round(&mut self, simulator: &mut Simulator) {
        let mut draws: Vec<u32> = Vec::new();
        let mut i: usize = 0;
        while i < simulator.nodes.len()
            invariant
                i <= simulator.nodes@.len(),
                draws@.len() == i,
                forall|t: int| 0 <= t < i ==> #[trigger] draws@[t] < PROBABILITY_SCALE,
            decreases simulator.nodes@.len() - i,
        {
            draws.push(crate::random::draw_below(PROBABILITY_SCALE as u32));
            i = i + 1;
        }
        self.run_round_with_draws(simulator, &draws);
        assert(valid_draws(draws@, old(simulator).nodes@.len() as int));
    }

    fn name(&self) -> &'static str {
        "LEACH"
    }
}

} // verus!
