//! The simulation driver: owns the nodes and the round counter and hands
//! each round to the active protocol.
use vstd::prelude::*;
use crate::node::{Node, Point, MAX_COORD};
use crate::network::{MAX_NODES, count_alive, nodes_wf, round_step};

verus! {

/// One round of a clustering protocol over the simulator's nodes.
pub trait Protocol: Sized {
    /// The protocol's own invariant.
    spec fn inv(&self) -> bool;

    /// What one round does: from this protocol state and the simulator
    /// `before`, the protocol may end as `after_self` and the simulator as
    /// `after`.
    spec fn round(&self, before: Simulator, after_self: Self, after: Simulator) -> bool;

    /// Runs one full round on the simulator's nodes: keeps the simulator
    /// well formed (the alive count stays exact), moves each node only as one
    /// round may, and leaves the round counter alone.
    fn run_round(&mut self, simulator: &mut Simulator)
        requires
            old(self).inv(),
            old(simulator).wf(),
        ensures
            final(self).inv(),
            final(simulator).wf(),
            round_step(old(simulator).nodes@, final(simulator).nodes@),
            final(simulator).current_round == old(simulator).current_round,
            old(self).round(*old(simulator), *final(self), *final(simulator)),
    ;

    /// Human-readable name of the protocol.
    fn name(&self) -> &'static str;
}

/// Simulation state.
pub struct Simulator {
    /// All nodes; node `i` has id `i`, and dead nodes stay in place.
    pub nodes: Vec<Node>,
    /// Rounds run so far.
    pub current_round: usize,
    /// Number of alive nodes.
    pub alive_node_count: usize,
}

proof fn lemma_count_all_alive(s: Seq<Node>)
    requires
        forall|i: int| 0 <= i < s.len() ==> (#[trigger] s[i]).is_alive,
    ensures
        count_alive(s) == s.len(),
    decreases s.len(),
{
    if s.len() > 0 {
        lemma_count_all_alive(s.drop_last());
    }
}

impl Simulator {
    /// Node list well formed and alive count exact.
    pub open spec fn wf(&self) -> bool {
        &&& nodes_wf(self.nodes@)
        &&& self.alive_node_count == count_alive(self.nodes@)
    }

    /// A simulator at round 0 with one fresh node per given position.
    pub fn with_positions(positions: &Vec<Point>) -> (r: Simulator)
        requires
            positions@.len() <= MAX_NODES,
            forall|i: int| 0 <= i < positions@.len() ==> (#[trigger] positions@[i]).in_bounds(),
        ensures
            r.wf(),
            r.current_round == 0,
            r.alive_node_count == positions@.len(),
            r.nodes@.len() == positions@.len(),
            forall|i: int| 0 <= i < r.nodes@.len() ==> (#[trigger] r.nodes@[i]).is_fresh(i as usize, positions@[i]),
    {
        let nodes = Node::from_positions(positions);
        proof {
            lemma_count_all_alive(nodes@);
        }
        Simulator { nodes, current_round: 0, alive_node_count: positions.len() }
    }

    /// A simulator at round 0 with `node_count` fresh nodes placed uniformly
    /// at random in `[100, width)` × `[100, height)`; `None` unless the area
    /// exceeds one metre each way (within `MAX_COORD`) and `node_count` is
    /// positive (within `MAX_NODES`).
    pub fn new(width: i64, height: i64, node_count: usize) -> (r: Option<Simulator>)
        ensures
            r is Some <==> (100 < width <= MAX_COORD && 100 < height <= MAX_COORD && 0 < node_count
                <= MAX_NODES),
            r matches Some(s) ==> {
                &&& s.wf()
                &&& s.current_round == 0
                &&& s.alive_node_count == node_count
                &&& s.nodes@.len() == node_count
                &&& forall|i: int|
                    0 <= i < s.nodes@.len() ==> {
                        &&& (#[trigger] s.nodes@[i]).is_fresh(i as usize, s.nodes@[i].position)
                        &&& 100 <= s.nodes@[i].position.x < width
                        &&& 100 <= s.nodes@[i].position.y < height
                    }
            },
    {
        if !(100 < width && width <= MAX_COORD && 100 < height && height <= MAX_COORD && 0 < node_count
            && node_count <= MAX_NODES) {
            return None;
        }
        let nodes = Node::create_wsn(width, height, node_count);
        proof {
            lemma_count_all_alive(nodes@);
        }
        Some(Simulator { nodes, current_round: 0, alive_node_count: node_count })
    }

    /// Advances the round counter and lets `protocol` run the round.
    pub fn update<P: Protocol>(&mut self, protocol: &mut P)
        requires
            old(self).wf(),
            old(protocol).inv(),
            old(self).current_round < usize::MAX,
        ensures
            final(self).wf(),
            final(protocol).inv(),
            final(self).current_round == old(self).current_round + 1,
            round_step(old(self).nodes@, final(self).nodes@),
            old(protocol).round(
                Simulator { current_round: (old(self).current_round + 1) as usize, ..*old(self) },
                *final(protocol),
                *final(self),
            ),
    {
        self.current_round = self.current_round + 1;
        assert(*self == Simulator { current_round: (old(self).current_round + 1) as usize, ..*old(self) });
        protocol.run_round(self);
    }
}

} // verus!
