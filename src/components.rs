use vstd::prelude::*;
use crate::graph::{Arc, Graph, arcs_in_range, has_reverse, is_symmetric, is_reverse};

verus! {

/// Node `a`'s list holds an arc to node `b`.
pub open spec fn has_arc(adj: Seq<Seq<Arc>>, a: int, b: int) -> bool {
    0 <= a < adj.len() && exists|k: int| 0 <= k < adj[a].len() && (#[trigger] adj[a][k]).head_node_id == b
}

/// `p` is a path: a non-empty sequence of nodes, each joined to the next by an arc.
pub open spec fn is_path(adj: Seq<Seq<Arc>>, p: Seq<int>) -> bool {
    &&& p.len() > 0
    &&& forall|i: int| 0 <= i < p.len() - 1 ==> has_arc(adj, #[trigger] p[i], p[i + 1])
}

/// Some path of stored arcs leads from `a` to `b`.
pub open spec fn reachable(adj: Seq<Seq<Arc>>, a: int, b: int) -> bool {
    exists|p: Seq<int>| #[trigger] is_path(adj, p) && p[0] == a && p.last() == b
}

/// The nodes reachable from `s`.
pub open spec fn component(adj: Seq<Seq<Arc>>, s: int) -> Set<int> {
    Set::new(|k: int| 0 <= k < adj.len() && reachable(adj, s, k))
}

proof fn lemma_component_finite(adj: Seq<Seq<Arc>>, s: int)
    ensures
        component(adj, s).finite(),
        component(adj, s).len() <= adj.len(),
{
    let full = Set::new(|k: int| 0 <= k < adj.len());
    assert(full =~= vstd::set_lib::set_int_range(0, adj.len() as int));
    vstd::set_lib::lemma_int_range(0, adj.len() as int);
    assert(component(adj, s).subset_of(full));
    vstd::set_lib::lemma_len_subset(component(adj, s), full);
}

proof fn lemma_reachable_self(adj: Seq<Seq<Arc>>, a: int)
    ensures
        reachable(adj, a, a),
{
    let p = seq![a];
    assert(is_path(adj, p));
}

/// Reachability is transitive.
pub proof fn lemma_reachable_transitive(adj: Seq<Seq<Arc>>, a: int, m: int, b: int)
    requires
        reachable(adj, a, m),
        reachable(adj, m, b),
    ensures
        reachable(adj, a, b),
{
    let first = choose|p: Seq<int>| #[trigger] is_path(adj, p) && p[0] == a && p.last() == m;
    let second = choose|p: Seq<int>| #[trigger] is_path(adj, p) && p[0] == m && p.last() == b;
    let q = first + second.drop_first();
    assert forall|i: int| 0 <= i < q.len() - 1 implies has_arc(adj, #[trigger] q[i], q[i + 1]) by {
        if i < first.len() - 1 {
            assert(q[i] == first[i] && q[i + 1] == first[i + 1]);
        } else if i == first.len() - 1 {
            assert(q[i] == second[0] && q[i + 1] == second[1]);
        } else {
            let j = i - first.len() + 1;
            assert(q[i] == second[j] && q[i + 1] == second[j + 1]);
        }
    }
    assert(is_path(adj, q));
    if second.len() == 1 {
        assert(q.last() == first.last());
    } else {
        assert(q.last() == second.last());
    }
}

proof fn lemma_reach_one(adj: Seq<Seq<Arc>>, a: int, b: int)
    requires
        has_arc(adj, a, b),
    ensures
        reachable(adj, a, b),
{
    let p = seq![a, b];
    assert(is_path(adj, p));
}

proof fn lemma_arc_reverse(adj: Seq<Seq<Arc>>, x: int, y: int)
    requires
        arcs_in_range(adj),
        is_symmetric(adj),
        has_arc(adj, x, y),
    ensures
        has_arc(adj, y, x),
{
    let k = choose|k: int| 0 <= k < adj[x].len() && (#[trigger] adj[x][k]).head_node_id == y;
    assert(adj[x][k].tail_node_id == x);
    assert(has_reverse(adj, adj[x][k]));
    let j = choose|j: int| 0 <= j < adj[y].len() && is_reverse(adj[x][k], #[trigger] adj[y][j]);
    assert(adj[y][j].head_node_id == x);
}

/// In a graph whose arcs come in opposite pairs, reachability is symmetric.
pub proof fn lemma_reachable_symmetric(adj: Seq<Seq<Arc>>, a: int, b: int)
    requires
        arcs_in_range(adj),
        is_symmetric(adj),
        reachable(adj, a, b),
    ensures
        reachable(adj, b, a),
{
    let p = choose|p: Seq<int>| #[trigger] is_path(adj, p) && p[0] == a && p.last() == b;
    let n = p.len();
    let r = Seq::new(n, |i: int| p[n - 1 - i]);
    assert forall|i: int| 0 <= i < r.len() - 1 implies has_arc(adj, #[trigger] r[i], r[i + 1]) by {
        assert(has_arc(adj, p[n - 2 - i], p[n - 1 - i]));
        lemma_arc_reverse(adj, p[n - 2 - i], p[n - 1 - i]);
    }
    assert(is_path(adj, r));
}

/// A set of nodes that holds `s` and is closed under arcs holds every node
/// reachable from `s`.
proof fn lemma_closed_holds_reachable(adj: Seq<Seq<Arc>>, marked: Seq<bool>, p: Seq<int>, i: int)
    requires
        marked.len() == adj.len(),
        is_path(adj, p),
        0 <= p[0] < adj.len(),
        marked[p[0]],
        arcs_in_range(adj),
        forall|t: int, k: int|
            0 <= t < adj.len() && marked[t] && 0 <= k < adj[t].len() ==> marked[(#[trigger] adj[t][k]).head_node_id as int],
        0 <= i < p.len(),
    ensures
        0 <= p[i] < adj.len() && marked[p[i]],
    decreases i,
{
    if i > 0 {
        lemma_closed_holds_reachable(adj, marked, p, i - 1);
        assert(has_arc(adj, p[i - 1], p[i]));
        let k = choose|k: int| 0 <= k < adj[p[i - 1]].len() && (#[trigger] adj[p[i - 1]][k]).head_node_id == p[i];
    }
}

/// The queue from position `from` on holds node `x`.
spec fn queued(queue: Seq<usize>, from: int, x: int) -> bool {
    exists|q: int| from <= q < queue.len() && queue[q] == x
}

impl Graph {
    /// Flood fill from `node_id`: the number of nodes reachable from it and a
    /// marker per node telling whether it is one of them.
    pub fn compute_reachable_nodes(&self, node_id: usize) -> (r: (usize, Vec<bool>))
        requires
            self.well_formed(),
            node_id < self.nodes.len(),
        ensures
            r.1.len() == self.nodes.len(),
            forall|k: int| 0 <= k < self.nodes.len() ==> (r.1@[k] <==> reachable(self.adj(), node_id as int, k)),
            r.0 == component(self.adj(), node_id as int).len(),
    {
        let ghost adj = self.adj();
        let n = self.adjacency_lists.len();
        let mut marked: Vec<bool> = Vec::new();
        let mut i: usize = 0;
        while i < n
            invariant
                i <= n,
                marked.len() == i,
                forall|k: int| 0 <= k < i ==> !marked@[k],
            decreases n - i,
        {
            marked.push(false);
            i = i + 1;
        }
        let mut queue: Vec<usize> = Vec::new();
        queue.push(node_id);
        let mut head: usize = 0;
        let mut count: usize = 0;
        let ghost mut set: Set<int> = Set::empty();
        proof {
            lemma_reachable_self(adj, node_id as int);
            assert(queue@[0] == node_id);
            assert(queued(queue@, 0, node_id as int));
        }
        while head < queue.len()
            invariant
                arcs_in_range(adj),
                self.adjacency_lists.len() == n,
                adj == self.adj(),
                n == adj.len(),
                node_id < n,
                marked.len() == n,
                head <= queue.len(),
                forall|q: int| 0 <= q < queue.len() ==> #[trigger] queue@[q] < n,
                forall|q: int| 0 <= q < queue.len() ==> reachable(adj, node_id as int, #[trigger] queue@[q] as int),
                forall|k: int| 0 <= k < n && #[trigger] marked@[k] ==> reachable(adj, node_id as int, k),
                marked@[node_id as int] || queued(queue@, head as int, node_id as int),
                forall|t: int, k: int|
                    0 <= t < n && marked@[t] && 0 <= k < adj[t].len() ==> marked@[(#[trigger] adj[t][k]).head_node_id as int]
                        || queued(queue@, head as int, adj[t][k].head_node_id as int),
                set.finite(),
                forall|k: int| #[trigger] set.contains(k) <==> (0 <= k < n && marked@[k]),
                set.len() == count,
                count <= n,
            decreases n - count, queue.len() - head,
        {
            let x = queue[head];
            let ghost old_queue = queue@;
            let ghost old_head = head;
            head = head + 1;
            if marked[x] {
                assert forall|t: int, k: int|
                    0 <= t < n && marked@[t] && 0 <= k < adj[t].len() implies marked@[(#[trigger] adj[t][k]).head_node_id as int]
                        || queued(queue@, head as int, adj[t][k].head_node_id as int) by {
                    let h = adj[t][k].head_node_id as int;
                    if !marked@[h] {
                        let q = choose|q: int| old_head <= q < old_queue.len() && old_queue[q] == h;
                        assert(q != old_head);
                    }
                    if !marked@[node_id as int] {
                        let q = choose|q: int| old_head <= q < old_queue.len() && old_queue[q] == node_id as int;
                        assert(q != old_head);
                    }
                }
                continue;
            }
            proof {
                lemma_component_finite(adj, node_id as int);
                assert(!set.contains(x as int));
                assert(set.insert(x as int).subset_of(component(adj, node_id as int)));
                vstd::set_lib::lemma_len_subset(set.insert(x as int), component(adj, node_id as int));
                assert(component(adj, node_id as int).len() <= n) by {
                    lemma_component_finite(adj, node_id as int);
                }
            }
            marked.set(x, true);
            count = count + 1;
            proof {
                set = set.insert(x as int);
            }
            let ghost marked_before_arcs = marked@;
            let arcs = &self.adjacency_lists[x];
            assert(arcs@ == adj[x as int]);
            let mut e: usize = 0;
            while e < arcs.len()
                invariant
                    arcs_in_range(adj),
                    self.adjacency_lists.len() == n,
                    adj == self.adj(),
                    arcs@ == adj[x as int],
                    x < n,
                    n == adj.len(),
                    e <= arcs.len(),
                    marked@ == marked_before_arcs,
                    marked.len() == n,
                    head <= queue.len(),
                    queue@.len() >= old_queue.len(),
                    forall|q: int| 0 <= q < old_queue.len() ==> queue@[q] == old_queue[q],
                    forall|q: int| 0 <= q < queue.len() ==> #[trigger] queue@[q] < n,
                    forall|q: int| 0 <= q < queue.len() ==> reachable(adj, node_id as int, #[trigger] queue@[q] as int),
                    reachable(adj, node_id as int, x as int),
                    forall|k: int| 0 <= k < e ==> marked@[(#[trigger] adj[x as int][k]).head_node_id as int]
                        || queued(queue@, head as int, adj[x as int][k].head_node_id as int),
                decreases arcs.len() - e,
            {
                let h = arcs[e].head_node_id;
                proof {
                    assert(adj[x as int][e as int].tail_node_id == x);
                    assert(has_arc(adj, x as int, h as int));
                    lemma_reach_one(adj, x as int, h as int);
                    lemma_reachable_transitive(adj, node_id as int, x as int, h as int);
                }
                if !marked[h] {
                    let ghost before = queue@;
                    queue.push(h);
                    assert forall|k: int| 0 <= k < e implies marked@[(#[trigger] adj[x as int][k]).head_node_id as int]
                        || queued(queue@, head as int, adj[x as int][k].head_node_id as int) by {
                        let hk = adj[x as int][k].head_node_id as int;
                        if !marked@[hk] {
                            let q = choose|q: int| head <= q < before.len() && before[q] == hk;
                            assert(queue@[q] == before[q]);
                        }
                    }
                    assert(queue@[queue.len() - 1] == h);
                }
                e = e + 1;
            }
            proof {
                assert forall|t: int, k: int|
                    0 <= t < n && marked@[t] && 0 <= k < adj[t].len() implies marked@[(#[trigger] adj[t][k]).head_node_id as int]
                        || queued(queue@, head as int, adj[t][k].head_node_id as int) by {
                    let h = adj[t][k].head_node_id as int;
                    if t != x && h != x && !marked@[h] {
                        let q = choose|q: int| old_head <= q < old_queue.len() && old_queue[q] == h;
                        assert(q != old_head);
                        assert(queue@[q] == old_queue[q]);
                    }
                }
                if !marked@[node_id as int] {
                    let q = choose|q: int| old_head <= q < old_queue.len() && old_queue[q] == node_id as int;
                    assert(q != old_head);
                    assert(queue@[q] == old_queue[q]);
                }
            }
        }
        proof {
            assert forall|k: int| 0 <= k < n implies (marked@[k] <==> reachable(adj, node_id as int, k)) by {
                if reachable(adj, node_id as int, k) {
                    let p = choose|p: Seq<int>| #[trigger] is_path(adj, p) && p[0] == node_id as int && p.last() == k;
                    lemma_closed_holds_reachable(adj, marked@, p, p.len() - 1);
                }
            }
            assert(set =~= component(adj, node_id as int));
        }
        (count, marked)
    }
}

/// The component of a node reachable from `i` lies inside the component of `i`.
proof fn lemma_component_subset(adj: Seq<Seq<Arc>>, i: int, j: int)
    requires
        reachable(adj, i, j),
    ensures
        component(adj, j).subset_of(component(adj, i)),
        component(adj, j).len() <= component(adj, i).len(),
{
    assert forall|k: int| #[trigger] component(adj, j).contains(k) implies component(adj, i).contains(k) by {
        lemma_reachable_transitive(adj, i, j, k);
    }
    lemma_component_finite(adj, i);
    vstd::set_lib::lemma_len_subset(component(adj, j), component(adj, i));
}

/// Every node lies in its own component, and two components that share a
/// node are the same: the components partition the nodes.
pub proof fn lemma_components_partition(adj: Seq<Seq<Arc>>, a: int, b: int, k: int)
    requires
        arcs_in_range(adj),
        is_symmetric(adj),
        0 <= a < adj.len(),
        component(adj, a).contains(k),
        component(adj, b).contains(k),
    ensures
        component(adj, a).contains(a),
        component(adj, a) == component(adj, b),
{
    lemma_reachable_self(adj, a);
    lemma_reachable_symmetric(adj, b, k);
    lemma_reachable_transitive(adj, a, k, b);
    lemma_reachable_symmetric(adj, a, b);
    lemma_component_subset(adj, a, b);
    lemma_component_subset(adj, b, a);
    assert(component(adj, a) =~= component(adj, b));
}

/// Any two members of one component are reachable from each other.
pub proof fn lemma_component_mutually_reachable(adj: Seq<Seq<Arc>>, s: int, a: int, b: int)
    requires
        arcs_in_range(adj),
        is_symmetric(adj),
        component(adj, s).contains(a),
        component(adj, s).contains(b),
    ensures
        reachable(adj, a, b),
{
    lemma_reachable_symmetric(adj, s, a);
    lemma_reachable_transitive(adj, a, s, b);
}

/// `ids` lists exactly the members of the node set `c`.
pub open spec fn lists_exactly(ids: Seq<usize>, c: Set<int>) -> bool {
    &&& forall|q: int| 0 <= q < ids.len() ==> c.contains(#[trigger] ids[q] as int)
    &&& forall|k: int| #[trigger] c.contains(k) ==> exists|q: int| 0 <= q < ids.len() && ids[q] as int == k
}

/// The ids whose marker is set, in increasing order.
fn marked_ids(marked: &Vec<bool>) -> (r: Vec<usize>)
    ensures
        forall|q: int| 0 <= q < r.len() ==> #[trigger] r@[q] < marked.len() && marked@[r@[q] as int],
        forall|k: int| 0 <= k < marked.len() && marked@[k] ==> r@.contains(k as usize),
        forall|p: int, q: int| 0 <= p < q < r.len() ==> r@[p] < r@[q],
{
    let mut r: Vec<usize> = Vec::new();
    let mut j: usize = 0;
    while j < marked.len()
        invariant
            j <= marked.len(),
            forall|q: int| 0 <= q < r.len() ==> #[trigger] r@[q] < j && marked@[r@[q] as int],
            forall|k: int| 0 <= k < j && marked@[k] ==> r@.contains(k as usize),
            forall|p: int, q: int| 0 <= p < q < r.len() ==> r@[p] < r@[q],
        decreases marked.len() - j,
    {
        if marked[j] {
            let ghost before = r@;
            r.push(j);
            assert forall|k: int| 0 <= k < j + 1 && marked@[k] implies r@.contains(k as usize) by {
                if k < j {
                    let q = choose|q: int| 0 <= q < before.len() && before[q] == k as usize;
                    assert(r@[q] == before[q]);
                } else {
                    assert(r@[r.len() - 1] == j);
                }
            }
        }
        j = j + 1;
    }
    r
}

/// Sets the marker of every node that `reach` marks.
fn mark_all(visited: &mut Vec<bool>, reach: &Vec<bool>)
    requires
        old(visited).len() == reach.len(),
    ensures
        final(visited).len() == reach.len(),
        forall|k: int| 0 <= k < reach.len() ==> #[trigger] final(visited)@[k] == (old(visited)@[k] || reach@[k]),
{
    let mut j: usize = 0;
    while j < reach.len()
        invariant
            j <= reach.len(),
            visited.len() == reach.len(),
            forall|k: int| 0 <= k < j ==> #[trigger] visited@[k] == (old(visited)@[k] || reach@[k]),
            forall|k: int| j <= k < reach.len() ==> #[trigger] visited@[k] == old(visited)@[k],
        decreases reach.len() - j,
    {
        if reach[j] {
            visited.set(j, true);
        }
        j = j + 1;
    }
}

impl Graph {
    /// The largest connected component: its size and its node ids in
    /// increasing order. Of several components of the largest size, the one
    /// holding the smallest node id is reported.
    pub fn compute_lcc(&self) -> (r: (usize, Vec<usize>))
        requires
            self.well_formed(),
        ensures
            self.nodes.len() == 0 ==> r.0 == 0 && r.1.len() == 0,
            self.nodes.len() > 0 ==> exists|s: int| {
                &&& 0 <= s < self.nodes.len()
                &&& r.0 == (#[trigger] component(self.adj(), s)).len()
                &&& lists_exactly(r.1@, component(self.adj(), s))
                &&& forall|j: int| 0 <= j < s ==> component(self.adj(), j).len() < r.0
            },
            forall|j: int| 0 <= j < self.nodes.len() ==> component(self.adj(), j).len() <= r.0,
            forall|p: int, q: int| 0 <= p < q < r.1.len() ==> r.1@[p] < r.1@[q],
    {
        let ghost adj = self.adj();
        let n = self.num_nodes();
        let mut visited: Vec<bool> = Vec::new();
        let mut j: usize = 0;
        while j < n
            invariant
                j <= n,
                visited.len() == j,
                forall|k: int| 0 <= k < j ==> !visited@[k],
            decreases n - j,
        {
            visited.push(false);
            j = j + 1;
        }
        let mut best: usize = 0;
        let mut members: Vec<usize> = Vec::new();
        let ghost mut seed: int = 0;
        let mut i: usize = 0;
        while i < n
            invariant
                self.well_formed(),
                adj == self.adj(),
                n == self.nodes.len(),
                n == adj.len(),
                i <= n,
                visited.len() == n,
                forall|k: int| 0 <= k < n && #[trigger] visited@[k] ==> component(adj, k).len() <= best,
                forall|k: int| 0 <= k < i ==> component(adj, k).len() <= best,
                best == 0 ==> members.len() == 0,
                best > 0 ==> {
                    &&& 0 <= seed < n
                    &&& best == component(adj, seed).len()
                    &&& lists_exactly(members@, component(adj, seed))
                    &&& forall|k: int| 0 <= k < seed ==> component(adj, k).len() < best
                },
                forall|p: int, q: int| 0 <= p < q < members.len() ==> members@[p] < members@[q],
            decreases n - i,
        {
            if !visited[i] {
                let (cnt, reach) = self.compute_reachable_nodes(i);
                proof {
                    assert forall|k: int| 0 <= k < n && reach@[k] implies component(adj, k).len() <= cnt by {
                        lemma_component_subset(adj, i as int, k);
                    }
                }
                if cnt > best {
                    let ids = marked_ids(&reach);
                    proof {
                        assert forall|k: int| #[trigger] component(adj, i as int).contains(k) implies exists|q: int|
                            0 <= q < ids.len() && ids@[q] as int == k by {
                            assert(reach@[k]);
                            assert(ids@.contains(k as usize));
                        }
                        assert(lists_exactly(ids@, component(adj, i as int)));
                        seed = i as int;
                    }
                    members = ids;
                    best = cnt;
                }
                mark_all(&mut visited, &reach);
            }
            i = i + 1;
        }
        proof {
            if n > 0 {
                lemma_reachable_self(adj, 0);
                lemma_component_finite(adj, 0);
                assert(component(adj, 0).contains(0));
                assert(best > 0);
                assert(0 <= seed < n && best == component(adj, seed).len());
            }
        }
        (best, members)
    }
}

} // verus!
