use vstd::prelude::*;

verus! {

/// A directed arc record. Every declared edge is stored as two of these,
/// one in each direction.
#[derive(Clone, Copy, Debug, PartialEq, Eq)]
pub struct Arc {
    pub tail_node_id: usize,
    pub head_node_id: usize,
    pub distance: u64,
    pub max_speed: u64,
    pub costs: u64,
}

/// A node of the graph. Its position in the node table is its id.
/// The coordinates are kept as the decimal text they were written in.
/// `settled`, `distance` and `traceback_arc` are reserved for a path search;
/// `traceback_arc` names an arc as (tail node id, index in that node's list).
#[derive(Clone, Debug)]
pub struct Node {
    pub id: usize,
    pub latitude: Vec<u8>,
    pub longitude: Vec<u8>,
    pub traceback_arc: Option<(usize, usize)>,
    pub settled: bool,
    pub distance: Option<u64>,
}

/// A node table and, for each node id, the list of arcs leaving it.
pub struct Graph {
    pub nodes: Vec<Node>,
    pub adjacency_lists: Vec<Vec<Arc>>,
}

/// The adjacency table as a sequence of arc sequences.
pub open spec fn adj_view(lists: Seq<Vec<Arc>>) -> Seq<Seq<Arc>> {
    lists.map_values(|l: Vec<Arc>| l@)
}

/// Arc `r` is the reverse of arc `a`, with the same length and speed limit.
pub open spec fn is_reverse(a: Arc, r: Arc) -> bool {
    &&& r.tail_node_id == a.head_node_id
    &&& r.head_node_id == a.tail_node_id
    &&& r.distance == a.distance
    &&& r.max_speed == a.max_speed
}

/// Every arc is stored in its tail's list and points at an existing node.
pub open spec fn arcs_in_range(adj: Seq<Seq<Arc>>) -> bool {
    forall|t: int, k: int|
        0 <= t < adj.len() && 0 <= k < adj[t].len() ==> {
            &&& (#[trigger] adj[t][k]).tail_node_id == t
            &&& adj[t][k].head_node_id < adj.len()
        }
}

/// The reverse of arc `a` is stored in the list of its head.
pub open spec fn has_reverse(adj: Seq<Seq<Arc>>, a: Arc) -> bool {
    exists|j: int| 0 <= j < adj[a.head_node_id as int].len() && is_reverse(a, #[trigger] adj[a.head_node_id as int][j])
}

/// Every stored arc has its reverse stored in its head's list.
pub open spec fn is_symmetric(adj: Seq<Seq<Arc>>) -> bool {
    forall|t: int, k: int| 0 <= t < adj.len() && 0 <= k < adj[t].len() ==> has_reverse(adj, #[trigger] adj[t][k])
}

impl Graph {
    pub open spec fn adj(&self) -> Seq<Seq<Arc>> {
        adj_view(self.adjacency_lists@)
    }

    /// A graph whose node ids are their positions and whose arcs come in
    /// pairs of opposite direction.
    pub open spec fn well_formed(&self) -> bool {
        &&& self.nodes.len() == self.adjacency_lists.len()
        &&& forall|i: int| 0 <= i < self.nodes.len() ==> (#[trigger] self.nodes@[i]).id == i
        &&& arcs_in_range(self.adj())
        &&& is_symmetric(self.adj())
    }

    pub fn num_nodes(&self) -> (r: usize)
        ensures
            r == self.nodes.len(),
    {
        self.nodes.len()
    }

    /// The number of adjacency lists, one per node (not the number of edges).
    pub fn num_arcs(&self) -> (r: usize)
        ensures
            r == self.adjacency_lists.len(),
    {
        self.adjacency_lists.len()
    }

    /// Sets the cost of every arc to its distance.
    pub fn set_arc_costs_to_distance(&mut self)
        ensures
            final(self).nodes == old(self).nodes,
            costs_replaced(old(self).adj(), final(self).adj(), CostMode::Distance),
    {
        let mut lists: Vec<Vec<Arc>> = Vec::new();
        let mut i: usize = 0;
        while i < self.adjacency_lists.len()
            invariant
                i <= self.adjacency_lists.len(),
                lists.len() == i,
                forall|t: int| 0 <= t < i ==> #[trigger] lists@[t]@ =~= self.adj()[t].map_values(|a: Arc| with_costs(a, CostMode::Distance)),
            decreases self.adjacency_lists.len() - i,
        {
            let arcs = &self.adjacency_lists[i];
            let mut out: Vec<Arc> = Vec::new();
            let mut k: usize = 0;
            while k < arcs.len()
                invariant
                    k <= arcs.len(),
                    out.len() == k,
                    forall|j: int| 0 <= j < k ==> #[trigger] out@[j] == with_costs(arcs@[j], CostMode::Distance),
                decreases arcs.len() - k,
            {
                let a = arcs[k];
                out.push(Arc { costs: a.distance, ..a });
                k = k + 1;
            }
            lists.push(out);
            i = i + 1;
        }
        self.adjacency_lists = lists;
    }

    /// Sets the cost of every arc to its travel time when vehicles go at
    /// most `max_vehicle_speed` km/h.
    pub fn set_arc_costs_to_travel_time(&mut self, max_vehicle_speed: u64)
        ensures
            final(self).nodes == old(self).nodes,
            costs_replaced(old(self).adj(), final(self).adj(), CostMode::TravelTime { max_vehicle_speed }),
    {
        let mode = Ghost(CostMode::TravelTime { max_vehicle_speed });
        let mut lists: Vec<Vec<Arc>> = Vec::new();
        let mut i: usize = 0;
        while i < self.adjacency_lists.len()
            invariant
                i <= self.adjacency_lists.len(),
                lists.len() == i,
                mode@ == (CostMode::TravelTime { max_vehicle_speed }),
                forall|t: int| 0 <= t < i ==> #[trigger] lists@[t]@ =~= self.adj()[t].map_values(|a: Arc| with_costs(a, mode@)),
            decreases self.adjacency_lists.len() - i,
        {
            let arcs = &self.adjacency_lists[i];
            let mut out: Vec<Arc> = Vec::new();
            let mut k: usize = 0;
            while k < arcs.len()
                invariant
                    k <= arcs.len(),
                    out.len() == k,
                    mode@ == (CostMode::TravelTime { max_vehicle_speed }),
                    forall|j: int| 0 <= j < k ==> #[trigger] out@[j] == with_costs(arcs@[j], mode@),
                decreases arcs.len() - k,
            {
                let a = arcs[k];
                let costs = arc_travel_time(a.distance, a.max_speed, max_vehicle_speed);
                out.push(Arc { costs, ..a });
                k = k + 1;
            }
            lists.push(out);
            i = i + 1;
        }
        self.adjacency_lists = lists;
    }
}

/// The two ways of pricing an arc.
pub enum CostMode {
    Distance,
    TravelTime { max_vehicle_speed: u64 },
}

/// The arc `a` with its cost recomputed under `mode`.
pub open spec fn with_costs(a: Arc, mode: CostMode) -> Arc {
    let costs = match mode {
        CostMode::Distance => a.distance,
        CostMode::TravelTime { max_vehicle_speed } => travel_time(a.distance, min_speed(a.max_speed, max_vehicle_speed)),
    };
    Arc { costs, ..a }
}

/// `new` is `old` with every arc's cost recomputed under `mode`, all else kept.
pub open spec fn costs_replaced(old: Seq<Seq<Arc>>, new: Seq<Seq<Arc>>, mode: CostMode) -> bool {
    &&& new.len() == old.len()
    &&& forall|t: int| 0 <= t < old.len() ==> (#[trigger] new[t]).len() == old[t].len()
    &&& forall|t: int, k: int| 0 <= t < old.len() && 0 <= k < old[t].len() ==> #[trigger] new[t][k] == with_costs(old[t][k], mode)
}

/// Recomputing the costs under one mode a second time changes nothing: the
/// costs depend only on an arc's distance and speed limit, never on its old cost.
pub proof fn lemma_costs_idempotent(adj: Seq<Seq<Arc>>, once: Seq<Seq<Arc>>, twice: Seq<Seq<Arc>>, mode: CostMode)
    requires
        costs_replaced(adj, once, mode),
        costs_replaced(once, twice, mode),
    ensures
        twice == once,
{
    assert forall|t: int| 0 <= t < once.len() implies twice[t] == once[t] by {
        assert(twice[t] =~= once[t]);
    }
    assert(twice =~= once);
}

/// Travel time for `distance` meters at `speed` km/h, i.e. `distance * 3.6 / speed`
/// truncated, saturating at `u64::MAX`; a zero speed gives `u64::MAX`.
pub open spec fn travel_time(distance: u64, speed: u64) -> u64 {
    if speed == 0 {
        u64::MAX
    } else if (distance as int * 36) / (speed as int * 10) > u64::MAX as int {
        u64::MAX
    } else {
        ((distance as int * 36) / (speed as int * 10)) as u64
    }
}

pub open spec fn min_speed(a: u64, b: u64) -> u64 {
    if a < b { a } else { b }
}

/// The travel time of one arc when vehicles go at most `cap` km/h.
pub fn arc_travel_time(distance: u64, max_speed: u64, cap: u64) -> (r: u64)
    ensures
        r == travel_time(distance, min_speed(max_speed, cap)),
{
    let speed: u64 = if max_speed < cap { max_speed } else { cap };
    if speed == 0 {
        return u64::MAX;
    }
    let num: u128 = distance as u128 * 36;
    let den: u128 = speed as u128 * 10;
    let q: u128 = num / den;
    if q > u64::MAX as u128 {
        u64::MAX
    } else {
        q as u64
    }
}

} // verus!
