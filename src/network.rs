//! Invariants shared by both protocols: well-formed node lists, the alive
//! count, and how energy may change from one round to the next.
use vstd::prelude::*;
use crate::node::{Node, dist_sq, dist_sq_spec, base_station, INITIAL_NODE_ENERGY_PJ};
use crate::radio::{transmit_spec, receive_spec, aggregation_spec, DATA_PACKET_SIZE_BITS};

verus! {

/// Largest number of nodes a network may have.
pub const MAX_NODES: usize = 1_000_000;

/// Upper bound of one energy charge (pJ): a transmission, or the reception and
/// aggregation of up to `MAX_NODES` packets.
pub const CHARGE_MAX: i128 = 2_000_000_000_000_000_000_000;

/// Lower bound kept on every node's energy (pJ): a node is charged only in
/// rounds it starts with positive energy, and by less than four `CHARGE_MAX`
/// within one round, so it never gets near this bound.
pub const ENERGY_FLOOR: i128 = 10_000_000_000_000_000_000_000_000_000;

/// Number of alive nodes in `s`.
pub open spec fn count_alive(s: Seq<Node>) -> nat
    decreases s.len(),
{
    if s.len() == 0 {
        0
    } else {
        count_alive(s.drop_last()) + (if s.last().is_alive { 1nat } else { 0nat })
    }
}

/// The per-node facts every round keeps.
pub open spec fn node_wf(n: Node, i: int) -> bool {
    &&& n.id == i
    &&& n.position.in_bounds()
    &&& n.distance_sq_to_base_station == dist_sq_spec(n.position, base_station())
    &&& -ENERGY_FLOOR <= n.remaining_energy_pj <= INITIAL_NODE_ENERGY_PJ
}

/// A well-formed node list.
pub open spec fn nodes_wf(s: Seq<Node>) -> bool {
    &&& s.len() <= MAX_NODES
    &&& forall|i: int| 0 <= i < s.len() ==> node_wf(#[trigger] s[i], i)
}

/// The fields that never change after deployment.
pub open spec fn same_frame(a: Node, b: Node) -> bool {
    &&& a.id == b.id
    &&& a.position == b.position
    &&& a.distance_sq_to_base_station == b.distance_sq_to_base_station
}

/// How a node list may change over one round: the frame is kept, no node
/// gains energy, and no dead node comes back.
pub open spec fn round_step(a: Seq<Node>, b: Seq<Node>) -> bool {
    &&& a.len() == b.len()
    &&& forall|i: int|
        0 <= i < a.len() ==> {
            &&& same_frame(#[trigger] a[i], b[i])
            &&& b[i].remaining_energy_pj <= a[i].remaining_energy_pj
            &&& (!a[i].is_alive ==> !b[i].is_alive)
        }
}

/// Over any number of rounds, no node gains energy and no dead node comes
/// back: one-round steps compose.
pub proof fn lemma_round_step_transitive(a: Seq<Node>, b: Seq<Node>, c: Seq<Node>)
    requires
        round_step(a, b),
        round_step(b, c),
    ensures
        round_step(a, c),
{
    assert forall|i: int| 0 <= i < a.len() implies {
        &&& same_frame(#[trigger] a[i], c[i])
        &&& c[i].remaining_energy_pj <= a[i].remaining_energy_pj
        &&& (!a[i].is_alive ==> !c[i].is_alive)
    } by {
        assert(same_frame(a[i], b[i]));
        assert(same_frame(b[i], c[i]));
    }
}

/// Every alive node has positive energy.
pub open spec fn alive_have_energy(s: Seq<Node>) -> bool {
    forall|i: int| 0 <= i < s.len() && (#[trigger] s[i]).is_alive ==> s[i].remaining_energy_pj > 0
}

/// `n` with its energy replaced.
pub open spec fn with_energy(n: Node, e: int) -> Node {
    Node { remaining_energy_pj: e as i128, ..n }
}

pub proof fn lemma_count_alive_update(s: Seq<Node>, i: int, v: Node)
    requires
        0 <= i < s.len(),
    ensures
        count_alive(s.update(i, v)) + (if s[i].is_alive { 1int } else { 0int }) == count_alive(s)
            + (if v.is_alive { 1int } else { 0int }),
    decreases s.len(),
{
    let t = s.update(i, v);
    if i == s.len() - 1 {
        assert(t.drop_last() =~= s.drop_last());
    } else {
        lemma_count_alive_update(s.drop_last(), i, v);
        assert(t.drop_last() =~= s.drop_last().update(i, v));
    }
}

pub proof fn lemma_count_alive_same_flags(a: Seq<Node>, b: Seq<Node>)
    requires
        a.len() == b.len(),
        forall|i: int| 0 <= i < a.len() ==> (#[trigger] a[i]).is_alive == b[i].is_alive,
    ensures
        count_alive(a) == count_alive(b),
    decreases a.len(),
{
    if a.len() > 0 {
        lemma_count_alive_same_flags(a.drop_last(), b.drop_last());
    }
}

pub proof fn lemma_count_alive_le_len(s: Seq<Node>)
    ensures
        count_alive(s) <= s.len(),
    decreases s.len(),
{
    if s.len() > 0 {
        lemma_count_alive_le_len(s.drop_last());
    }
}

/// Charges node `j` with `cost` picojoules.
pub(crate) fn charge(nodes: &mut Vec<Node>, j: usize, cost: u128)
    requires
        j < old(nodes)@.len(),
        cost <= CHARGE_MAX,
        old(nodes)@[j as int].remaining_energy_pj >= -5 * ENERGY_FLOOR,
    ensures
        final(nodes)@ == old(nodes)@.update(
            j as int,
            with_energy(old(nodes)@[j as int], old(nodes)@[j as int].remaining_energy_pj - cost),
        ),
{
    let e = nodes[j].remaining_energy_pj - cost as i128;
    nodes[j].remaining_energy_pj = e;
    assert(nodes@[j as int] == with_energy(old(nodes)@[j as int], old(nodes)@[j as int].remaining_energy_pj - cost));
    assert(nodes@ =~= old(nodes)@.update(
            j as int,
            with_energy(old(nodes)@[j as int], old(nodes)@[j as int].remaining_energy_pj - cost),
        ));
}

} // verus!

verus! {

/// Whether `b` is `a` at the start of a round: transient fields cleared,
/// eligibility restored when `new_cycle`, and retired if its energy is spent.
pub open spec fn begins_round(a: Node, b: Node, new_cycle: bool) -> bool {
    &&& same_frame(a, b)
    &&& b.remaining_energy_pj == a.remaining_energy_pj
    &&& b.is_alive == (a.is_alive && a.remaining_energy_pj > 0)
    &&& !b.is_cluster_head
    &&& b.is_eligible_for_ch == (new_cycle || a.is_eligible_for_ch)
    &&& b.cluster_head_id is None
    &&& b.cluster_member_ids@.len() == 0
}

/// Clears every node's transient fields, restores eligibility when
/// `new_cycle`, and retires each alive node whose energy is spent, keeping
/// `alive_count` equal to the number of alive nodes.
pub fn begin_round(nodes: &mut Vec<Node>, alive_count: &mut usize, new_cycle: bool)
    requires
        *old(alive_count) == count_alive(old(nodes)@),
    ensures
        final(nodes)@.len() == old(nodes)@.len(),
        forall|i: int|
            0 <= i < old(nodes)@.len() ==> begins_round(
                #[trigger] old(nodes)@[i],
                final(nodes)@[i],
                new_cycle,
            ),
        *final(alive_count) == count_alive(final(nodes)@),
        alive_have_energy(final(nodes)@),
{
    let ghost start = nodes@;
    let mut i: usize = 0;
    while i < nodes.len()
        invariant
            nodes@.len() == start.len(),
            i <= nodes@.len(),
            *alive_count == count_alive(nodes@),
            forall|j: int| 0 <= j < i ==> begins_round(#[trigger] start[j], nodes@[j], new_cycle),
            forall|j: int| i <= j < nodes@.len() ==> #[trigger] nodes@[j] == start[j],
            forall|j: int|
                0 <= j < i && (#[trigger] nodes@[j]).is_alive ==> nodes@[j].remaining_energy_pj > 0,
        decreases nodes@.len() - i,
    {
        let ghost before = nodes@;
        nodes[i].is_cluster_head = false;
        nodes[i].cluster_head_id = None;
        nodes[i].cluster_member_ids.clear();
        if new_cycle {
            nodes[i].is_eligible_for_ch = true;
        }
        if nodes[i].is_alive && nodes[i].remaining_energy_pj <= 0 {
            nodes[i].is_alive = false;
            proof {
                lemma_count_alive_update(before, i as int, nodes@[i as int]);
            }
            *alive_count = *alive_count - 1;
        } else {
            proof {
                lemma_count_alive_update(before, i as int, nodes@[i as int]);
            }
        }
        assert(nodes@ =~= before.update(i as int, nodes@[i as int]));
        i = i + 1;
    }
}

} // verus!

verus! {

/// Energy a head spends per packet received from a member (or a relaying
/// head): reception plus aggregation.
pub open spec fn per_packet_spec() -> int {
    receive_spec(DATA_PACKET_SIZE_BITS as int) + aggregation_spec(DATA_PACKET_SIZE_BITS as int)
}

/// The nearest to node `f` of the first `m` nodes listed (first on ties).
pub open spec fn nearest_listed(nodes: Seq<Node>, f: int, list: Seq<usize>, m: int) -> Option<usize>
    decreases m,
{
    if m <= 0 {
        None
    } else {
        let b = nearest_listed(nodes, f, list, m - 1);
        let q = list[m - 1];
        match b {
            None => Some(q),
            Some(bb) => if dist_sq_spec(nodes[f].position, nodes[q as int].position) < dist_sq_spec(
                nodes[f].position,
                nodes[bb as int].position,
            ) {
                Some(q)
            } else {
                b
            },
        }
    }
}

/// What head `t` spends when it sends straight to the base station: its
/// members' packets, then one transmission to the base station.
pub open spec fn direct_head_cost(nodes: Seq<Node>, t: int) -> int {
    per_packet_spec() * nodes[t].cluster_member_ids@.len() + transmit_spec(
        DATA_PACKET_SIZE_BITS as int,
        nodes[t].distance_sq_to_base_station as int,
    )
}

/// Whether `x` is among the first `m` items of `s`.
pub open spec fn in_prefix(s: Seq<usize>, x: int, m: int) -> bool {
    exists|p: int| 0 <= p < m && #[trigger] s[p] as int == x
}

pub proof fn lemma_nearest_listed_in(nodes: Seq<Node>, f: int, list: Seq<usize>, m: int)
    requires
        0 <= m <= list.len(),
    ensures
        nearest_listed(nodes, f, list, m) matches Some(t) ==> exists|p: int| 0 <= p < m && list[p] == t,
        m > 0 ==> nearest_listed(nodes, f, list, m) is Some,
    decreases m,
{
    if m > 0 {
        lemma_nearest_listed_in(nodes, f, list, m - 1);
    }
}

pub proof fn lemma_nearest_listed_frame(a: Seq<Node>, b: Seq<Node>, f: int, list: Seq<usize>, m: int)
    requires
        a.len() == b.len(),
        forall|i: int| 0 <= i < a.len() ==> same_frame(#[trigger] a[i], b[i]),
        0 <= f < a.len(),
        0 <= m <= list.len(),
        forall|p: int| 0 <= p < list.len() ==> (#[trigger] list[p]) < a.len(),
    ensures
        nearest_listed(a, f, list, m) == nearest_listed(b, f, list, m),
    decreases m,
{
    if m > 0 {
        lemma_nearest_listed_frame(a, b, f, list, m - 1);
        let q = list[m - 1] as int;
        assert(same_frame(a[q], b[q]));
        assert(same_frame(a[f], b[f]));
        lemma_nearest_listed_in(a, f, list, m - 1);
        if let Some(bb) = nearest_listed(a, f, list, m - 1) {
            assert(same_frame(a[bb as int], b[bb as int]));
        }
    }
}

/// The nearest listed node to node `j` (first listed on ties), if any.
pub fn nearest_listed_node(nodes: &Vec<Node>, j: usize, list: &Vec<usize>) -> (r: Option<usize>)
    requires
        forall|i: int| 0 <= i < nodes@.len() ==> (#[trigger] nodes@[i]).position.in_bounds(),
        j < nodes@.len(),
        forall|p: int| 0 <= p < list@.len() ==> (#[trigger] list@[p]) < nodes@.len(),
    ensures
        r == nearest_listed(nodes@, j as int, list@, list@.len() as int),
        r matches Some(h) ==> h < nodes@.len(),
{
    let mut best: Option<usize> = None;
    let mut best_d: u64 = 0;
    let mut q: usize = 0;
    while q < list.len()
        invariant
            q <= list@.len(),
            forall|i: int| 0 <= i < nodes@.len() ==> (#[trigger] nodes@[i]).position.in_bounds(),
            j < nodes@.len(),
            forall|p: int| 0 <= p < list@.len() ==> (#[trigger] list@[p]) < nodes@.len(),
            best == nearest_listed(nodes@, j as int, list@, q as int),
            best matches Some(b) ==> b < nodes@.len() && best_d == dist_sq_spec(
                nodes@[j as int].position,
                nodes@[b as int].position,
            ),
        decreases list@.len() - q,
    {
        let t = list[q];
        let d = dist_sq(nodes[j].position, nodes[t].position);
        let closer = match best {
            None => true,
            Some(_) => d < best_d,
        };
        if closer {
            best = Some(t);
            best_d = d;
        }
        q = q + 1;
    }
    best
}

} // verus!
