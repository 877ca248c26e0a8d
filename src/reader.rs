use vstd::prelude::*;
use crate::graph::{Arc, Graph, Node, adj_view, arcs_in_range, has_reverse, is_symmetric, is_reverse};
use crate::text::{
    trimmed, split_fields, fields_view, parse_unsigned, is_float_text, trim_line, split_line,
    parse_unsigned_text, check_float_text,
};

verus! {

/// Which rule of the graph format a line breaks.
#[derive(Clone, Copy, Debug, PartialEq, Eq, Structural)]
pub enum FormatCase {
    /// The header is missing, or the input ends before every declared node and arc.
    General,
    /// A node line without exactly three fields, or whose id is not its position.
    InvalidNode,
    /// An arc line without exactly four fields, or with an end that is no node.
    InvalidArc,
    /// A content line after the last declared arc.
    AdditionalLines,
}

/// Why a graph could not be read; `line` counts every line from 1, blank
/// lines and comments included.
#[derive(Clone, Copy, Debug, PartialEq, Eq, Structural)]
pub enum Error {
    FormatError { case: FormatCase, line: usize },
    ParseIntError { line: usize },
    ParseFloatError { line: usize },
}

/// What has been read so far: the content and total line counters, the
/// declared counts, the nodes as (id, latitude text, longitude text), and
/// the adjacency table.
pub struct ReadState {
    pub line_number: int,
    pub total: int,
    pub node_count: int,
    pub arc_count: int,
    pub nodes: Seq<(usize, Seq<u8>, Seq<u8>)>,
    pub adj: Seq<Seq<Arc>>,
}

pub open spec fn initial_state() -> ReadState {
    ReadState { line_number: 0, total: 0, node_count: 0, arc_count: 0, nodes: Seq::empty(), adj: Seq::empty() }
}

/// The arc record stored for a declared edge, its cost set to its distance.
pub open spec fn new_arc(t: usize, h: usize, d: u64, s: u64) -> Arc {
    Arc { tail_node_id: t, head_node_id: h, distance: d, max_speed: s, costs: d }
}

/// `adj` with the edge `t`–`h` added in both directions.
pub open spec fn add_edge(adj: Seq<Seq<Arc>>, t: usize, h: usize, d: u64, s: u64) -> Seq<Seq<Arc>> {
    let a1 = adj.update(t as int, adj[t as int].push(new_arc(t, h, d, s)));
    a1.update(h as int, a1[h as int].push(new_arc(h, t, d, s)))
}

pub open spec fn format_error(case: FormatCase, line: int) -> Error {
    Error::FormatError { case, line: line as usize }
}

/// A node line: id, latitude, longitude.
pub open spec fn node_step(st: ReadState, parts: Seq<Seq<u8>>, total: int, ln: int) -> Result<ReadState, Error> {
    if parts.len() != 3 {
        Err(format_error(FormatCase::InvalidNode, total))
    } else {
        match parse_unsigned(parts[0], usize::MAX as nat) {
            None => Err(Error::ParseIntError { line: total as usize }),
            Some(id) => if !is_float_text(parts[1]) || !is_float_text(parts[2]) {
                Err(Error::ParseFloatError { line: total as usize })
            } else if id != st.nodes.len() {
                Err(format_error(FormatCase::InvalidNode, total))
            } else {
                Ok(ReadState {
                    line_number: ln,
                    total,
                    node_count: st.node_count,
                    arc_count: st.arc_count,
                    nodes: st.nodes.push((id as usize, parts[1], parts[2])),
                    adj: st.adj,
                })
            },
        }
    }
}

/// An arc line: tail, head, distance, speed limit.
pub open spec fn arc_step(st: ReadState, parts: Seq<Seq<u8>>, total: int, ln: int) -> Result<ReadState, Error> {
    if parts.len() != 4 {
        Err(format_error(FormatCase::InvalidArc, total))
    } else {
        let t = parse_unsigned(parts[0], usize::MAX as nat);
        let h = parse_unsigned(parts[1], usize::MAX as nat);
        let d = parse_unsigned(parts[2], u64::MAX as nat);
        let s = parse_unsigned(parts[3], u64::MAX as nat);
        if t.is_none() || h.is_none() || d.is_none() || s.is_none() {
            Err(Error::ParseIntError { line: total as usize })
        } else if t.unwrap() >= st.node_count || h.unwrap() >= st.node_count {
            Err(format_error(FormatCase::InvalidArc, total))
        } else {
            Ok(ReadState {
                line_number: ln,
                total,
                node_count: st.node_count,
                arc_count: st.arc_count,
                nodes: st.nodes,
                adj: add_edge(st.adj, t.unwrap() as usize, h.unwrap() as usize, d.unwrap() as u64, s.unwrap() as u64),
            })
        }
    }
}

/// Reading one more line. Blank lines and comments only advance the total
/// line counter; content line 1 declares the node count, line 2 the arc
/// count, then come the node lines and the arc lines.
pub open spec fn step(st: ReadState, line: Seq<u8>) -> Result<ReadState, Error> {
    let t = trimmed(line);
    let total = st.total + 1;
    if t.len() == 0 || t[0] == 35 {
        Ok(ReadState { line_number: st.line_number, total, node_count: st.node_count, arc_count: st.arc_count, nodes: st.nodes, adj: st.adj })
    } else {
        let ln = st.line_number + 1;
        let parts = split_fields(t);
        if ln == 1 {
            match parse_unsigned(parts[0], usize::MAX as nat) {
                None => Err(Error::ParseIntError { line: total as usize }),
                Some(v) => Ok(ReadState { line_number: ln, total, node_count: v as int, arc_count: st.arc_count, nodes: st.nodes, adj: st.adj }),
            }
        } else if ln == 2 {
            match parse_unsigned(parts[0], usize::MAX as nat) {
                None => Err(Error::ParseIntError { line: total as usize }),
                Some(v) => Ok(ReadState {
                    line_number: ln,
                    total,
                    node_count: st.node_count,
                    arc_count: v as int,
                    nodes: st.nodes,
                    adj: Seq::new(st.node_count as nat, |i: int| Seq::<Arc>::empty()),
                }),
            }
        } else if ln < st.node_count + 3 {
            node_step(st, parts, total, ln)
        } else if ln < st.node_count + st.arc_count + 3 {
            arc_step(st, parts, total, ln)
        } else {
            Err(format_error(FormatCase::AdditionalLines, total))
        }
    }
}

/// Reading all `lines` from the start, stopping at the first error.
pub open spec fn run(lines: Seq<Seq<u8>>) -> Result<ReadState, Error>
    decreases lines.len(),
{
    if lines.len() == 0 {
        Ok(initial_state())
    } else {
        match run(lines.drop_last()) {
            Err(e) => Err(e),
            Ok(st) => step(st, lines.last()),
        }
    }
}

/// The end of the input: every declared node and arc must have been read.
pub open spec fn finish_state(st: ReadState) -> Result<ReadState, Error> {
    if st.line_number < st.node_count + st.arc_count + 2 {
        Err(format_error(FormatCase::General, st.total))
    } else {
        Ok(st)
    }
}

/// The result of reading a whole graph file given as its lines.
pub open spec fn read_spec(lines: Seq<Seq<u8>>) -> Result<ReadState, Error> {
    match run(lines) {
        Err(e) => Err(e),
        Ok(st) => finish_state(st),
    }
}

pub open spec fn lines_view(lines: Seq<Vec<u8>>) -> Seq<Seq<u8>> {
    lines.map_values(|l: Vec<u8>| l@)
}

pub open spec fn nodes_view(nodes: Seq<Node>) -> Seq<(usize, Seq<u8>, Seq<u8>)> {
    nodes.map_values(|n: Node| (n.id, n.latitude@, n.longitude@))
}

/// `g` holds the nodes and arcs of `st`.
pub open spec fn holds_state(g: Graph, st: ReadState) -> bool {
    &&& nodes_view(g.nodes@) == st.nodes
    &&& g.adj() == st.adj
}

/// The number of stored arcs, over all lists.
pub open spec fn total_arcs(adj: Seq<Seq<Arc>>) -> int
    decreases adj.len(),
{
    if adj.len() == 0 {
        0
    } else {
        total_arcs(adj.drop_last()) + adj.last().len()
    }
}

proof fn lemma_total_arcs_push(adj: Seq<Seq<Arc>>, i: int, a: Arc)
    requires
        0 <= i < adj.len(),
    ensures
        total_arcs(adj.update(i, adj[i].push(a))) == total_arcs(adj) + 1,
    decreases adj.len(),
{
    let u = adj.update(i, adj[i].push(a));
    if i < adj.len() - 1 {
        assert(u.drop_last() =~= adj.drop_last().update(i, adj.drop_last()[i].push(a)));
        lemma_total_arcs_push(adj.drop_last(), i, a);
    } else {
        assert(u.drop_last() =~= adj.drop_last());
    }
}

proof fn lemma_total_arcs_empty(n: nat)
    ensures
        total_arcs(Seq::new(n, |i: int| Seq::<Arc>::empty())) == 0,
    decreases n,
{
    if n > 0 {
        assert(Seq::new(n, |i: int| Seq::<Arc>::empty()).drop_last() =~= Seq::new((n - 1) as nat, |i: int| Seq::<Arc>::empty()));
        lemma_total_arcs_empty((n - 1) as nat);
    }
}

/// The number of arc lines read so far.
pub open spec fn arcs_read(line_number: int, node_count: int) -> int {
    if line_number - 2 > node_count { line_number - 2 - node_count } else { 0 }
}

proof fn lemma_split_nonempty(s: Seq<u8>)
    ensures
        split_fields(s).len() >= 1,
    decreases s.len(),
{
    if s.len() > 0 {
        lemma_split_nonempty(s.drop_last());
    }
}

proof fn lemma_add_edge_shape(adj: Seq<Seq<Arc>>, t: usize, h: usize, d: u64, s: u64)
    requires
        t < adj.len(),
        h < adj.len(),
    ensures
        add_edge(adj, t, h, d, s).len() == adj.len(),
        forall|x: int, k: int| 0 <= x < adj.len() && 0 <= k < adj[x].len() ==> #[trigger] add_edge(adj, t, h, d, s)[x][k] == adj[x][k],
        forall|x: int| 0 <= x < adj.len() ==> (#[trigger] add_edge(adj, t, h, d, s)[x]).len() == adj[x].len()
            + (if x == t { 1int } else { 0 }) + (if x == h { 1int } else { 0 }),
        add_edge(adj, t, h, d, s)[t as int][adj[t as int].len() as int] == new_arc(t, h, d, s),
        add_edge(adj, t, h, d, s)[h as int][if t == h { adj[h as int].len() as int + 1 } else { adj[h as int].len() as int }]
            == new_arc(h, t, d, s),
{
}

proof fn lemma_add_edge_well_formed(adj: Seq<Seq<Arc>>, t: usize, h: usize, d: u64, s: u64)
    requires
        arcs_in_range(adj),
        is_symmetric(adj),
        t < adj.len(),
        h < adj.len(),
    ensures
        arcs_in_range(add_edge(adj, t, h, d, s)),
        is_symmetric(add_edge(adj, t, h, d, s)),
        add_edge(adj, t, h, d, s).len() == adj.len(),
{
    let a2 = add_edge(adj, t, h, d, s);
    lemma_add_edge_shape(adj, t, h, d, s);
    let ti = t as int;
    let hi = h as int;
    let ft = adj[ti].len() as int;
    let bh: int = if t == h { adj[hi].len() as int + 1 } else { adj[hi].len() as int };
    assert forall|x: int, k: int| 0 <= x < a2.len() && 0 <= k < a2[x].len() implies {
        &&& (#[trigger] a2[x][k]).tail_node_id == x
        &&& a2[x][k].head_node_id < a2.len()
    } by {
        if k >= adj[x].len() {
            if x == ti && k == ft {
            } else {
                assert(x == hi && k == bh);
            }
        }
    }
    assert forall|x: int, k: int| 0 <= x < a2.len() && 0 <= k < a2[x].len() implies has_reverse(a2, #[trigger] a2[x][k]) by {
        if k < adj[x].len() {
            assert(has_reverse(adj, adj[x][k]));
            let y = adj[x][k].head_node_id as int;
            let j = choose|j: int| 0 <= j < adj[y].len() && is_reverse(adj[x][k], #[trigger] adj[y][j]);
            assert(a2[y][j] == adj[y][j]);
            assert(is_reverse(a2[x][k], a2[y][j]));
        } else if x == ti && k == ft {
            assert(is_reverse(a2[x][k], a2[hi][bh]));
        } else {
            assert(x == hi && k == bh);
            assert(is_reverse(a2[x][k], a2[ti][ft]));
        }
    }
}

/// A reader of the graph format that takes one line at a time, so that
/// several inputs can be read as one.
pub struct GraphReader {
    pub graph: Graph,
    pub line_number: usize,
    pub total_line_number: usize,
    pub node_count: usize,
    pub arc_count: usize,
}

impl GraphReader {
    pub open spec fn model(&self) -> ReadState {
        ReadState {
            line_number: self.line_number as int,
            total: self.total_line_number as int,
            node_count: self.node_count as int,
            arc_count: self.arc_count as int,
            nodes: nodes_view(self.graph.nodes@),
            adj: self.graph.adj(),
        }
    }

    /// The graph read so far has node ids equal to positions, the reserved
    /// fields unset, arcs in pairs, and as many nodes as its lines declared.
    pub open spec fn inv(&self) -> bool {
        &&& forall|i: int| 0 <= i < self.graph.nodes.len() ==> {
            &&& (#[trigger] self.graph.nodes@[i]).id == i
            &&& self.graph.nodes@[i].traceback_arc.is_none()
            &&& !self.graph.nodes@[i].settled
            &&& self.graph.nodes@[i].distance.is_none()
        }
        &&& self.line_number < 2 ==> self.graph.adjacency_lists.len() == 0 && self.graph.nodes.len() == 0
        &&& self.line_number >= 2 ==> {
            &&& self.graph.adjacency_lists.len() == self.node_count
            &&& self.line_number <= self.node_count + self.arc_count + 2
            &&& self.graph.nodes.len() == if self.line_number - 2 < self.node_count { self.line_number - 2 } else { self.node_count as int }
        }
        &&& self.line_number <= self.total_line_number
        &&& total_arcs(self.graph.adj()) == 2 * arcs_read(self.line_number as int, self.node_count as int)
        &&& arcs_in_range(self.graph.adj())
        &&& is_symmetric(self.graph.adj())
    }

    pub fn new() -> (r: GraphReader)
        ensures
            r.model() == initial_state(),
            r.inv(),
    {
        let r = GraphReader {
            graph: Graph { nodes: Vec::new(), adjacency_lists: Vec::new() },
            line_number: 0,
            total_line_number: 0,
            node_count: 0,
            arc_count: 0,
        };
        assert(r.model().nodes =~= Seq::empty());
        assert(r.model().adj =~= Seq::empty());
        r
    }

    fn add_edge(&mut self, t: usize, h: usize, d: u64, s: u64)
        requires
            old(self).inv(),
            old(self).line_number >= 2,
            t < old(self).node_count,
            h < old(self).node_count,
        ensures
            final(self).graph.adj() == add_edge(old(self).graph.adj(), t, h, d, s),
            final(self).graph.nodes == old(self).graph.nodes,
            final(self).line_number == old(self).line_number,
            final(self).total_line_number == old(self).total_line_number,
            final(self).node_count == old(self).node_count,
            final(self).arc_count == old(self).arc_count,
    {
        let ghost before = self.graph.adjacency_lists@;
        let mut l: Vec<Arc> = Vec::new();
        self.graph.adjacency_lists.set_and_swap(t, &mut l);
        l.push(Arc { tail_node_id: t, head_node_id: h, distance: d, max_speed: s, costs: d });
        self.graph.adjacency_lists.set_and_swap(t, &mut l);
        let ghost mid = self.graph.adjacency_lists@;
        assert(adj_view(mid) =~= adj_view(before).update(t as int, adj_view(before)[t as int].push(new_arc(t, h, d, s))));
        let mut m: Vec<Arc> = Vec::new();
        self.graph.adjacency_lists.set_and_swap(h, &mut m);
        m.push(Arc { tail_node_id: h, head_node_id: t, distance: d, max_speed: s, costs: d });
        self.graph.adjacency_lists.set_and_swap(h, &mut m);
        assert(self.graph.adj() =~= adj_view(mid).update(h as int, adj_view(mid)[h as int].push(new_arc(h, t, d, s))));
    }

    /// Reads one line; on success the state is the one `step` gives.
    pub fn read_line(&mut self, line: &Vec<u8>) -> (r: Result<(), Error>)
        requires
            old(self).inv(),
            old(self).total_line_number < usize::MAX,
        ensures
            match step(old(self).model(), line@) {
                Ok(st) => r is Ok && final(self).model() == st && final(self).inv(),
                Err(e) => r == Err::<(), Error>(e),
            },
    {
        let t = trim_line(line);
        let total = self.total_line_number + 1;
        if t.len() == 0 || t[0] == 35 {
            self.total_line_number = total;
            return Ok(());
        }
        let ln = self.line_number + 1;
        let mut parts = split_line(&t);
        proof {
            lemma_split_nonempty(t@);
            assert(parts@[0]@ == split_fields(t@)[0]);
        }
        if ln == 1 {
            match parse_unsigned_text(&parts[0], usize::MAX as u64) {
                None => return Err(Error::ParseIntError { line: total }),
                Some(v) => {
                    self.node_count = v as usize;
                    self.line_number = ln;
                    self.total_line_number = total;
                    return Ok(());
                },
            }
        }
        if ln == 2 {
            match parse_unsigned_text(&parts[0], usize::MAX as u64) {
                None => return Err(Error::ParseIntError { line: total }),
                Some(v) => {
                    let mut lists: Vec<Vec<Arc>> = Vec::new();
                    let mut i: usize = 0;
                    while i < self.node_count
                        invariant
                            i <= self.node_count,
                            lists.len() == i,
                            forall|k: int| 0 <= k < i ==> (#[trigger] lists@[k])@.len() == 0,
                        decreases self.node_count - i,
                    {
                        lists.push(Vec::new());
                        i = i + 1;
                    }
                    self.graph.adjacency_lists = lists;
                    self.arc_count = v as usize;
                    self.line_number = ln;
                    self.total_line_number = total;
                    assert forall|k: int| 0 <= k < self.node_count implies #[trigger] self.graph.adj()[k] =~= Seq::<Arc>::empty() by {
                        assert(self.graph.adj()[k] == lists@[k]@);
                    }
                    assert(self.graph.adj() =~= Seq::new(self.node_count as nat, |i: int| Seq::<Arc>::empty()));
                    proof {
                        lemma_total_arcs_empty(self.node_count as nat);
                    }
                    return Ok(());
                },
            }
        }
        if ln - 3 < self.node_count {
            if parts.len() != 3 {
                return Err(Error::FormatError { case: FormatCase::InvalidNode, line: total });
            }
            proof {
                assert(fields_view(parts@)[1] == parts@[1]@);
                assert(fields_view(parts@)[2] == parts@[2]@);
            }
            let id = match parse_unsigned_text(&parts[0], usize::MAX as u64) {
                None => return Err(Error::ParseIntError { line: total }),
                Some(v) => v as usize,
            };
            if !check_float_text(&parts[1]) || !check_float_text(&parts[2]) {
                return Err(Error::ParseFloatError { line: total });
            }
            if id != self.graph.nodes.len() {
                return Err(Error::FormatError { case: FormatCase::InvalidNode, line: total });
            }
            let ghost lat_text = parts@[1]@;
            let ghost lon_text = parts@[2]@;
            let longitude = parts.pop().unwrap();
            let latitude = parts.pop().unwrap();
            let ghost old_nodes = self.graph.nodes@;
            self.graph.nodes.push(
                Node { id, latitude, longitude, traceback_arc: None, settled: false, distance: None },
            );
            self.line_number = ln;
            self.total_line_number = total;
            assert(nodes_view(self.graph.nodes@) =~= nodes_view(old_nodes).push((id, lat_text, lon_text)));
            return Ok(());
        }
        if ln - 3 - self.node_count < self.arc_count {
            if parts.len() != 4 {
                return Err(Error::FormatError { case: FormatCase::InvalidArc, line: total });
            }
            proof {
                assert(fields_view(parts@)[1] == parts@[1]@);
                assert(fields_view(parts@)[2] == parts@[2]@);
                assert(fields_view(parts@)[3] == parts@[3]@);
            }
            let tail = parse_unsigned_text(&parts[0], usize::MAX as u64);
            let head = parse_unsigned_text(&parts[1], usize::MAX as u64);
            let distance = parse_unsigned_text(&parts[2], u64::MAX);
            let max_speed = parse_unsigned_text(&parts[3], u64::MAX);
            if tail.is_none() || head.is_none() || distance.is_none() || max_speed.is_none() {
                return Err(Error::ParseIntError { line: total });
            }
            let tail = tail.unwrap() as usize;
            let head = head.unwrap() as usize;
            if tail >= self.node_count || head >= self.node_count {
                return Err(Error::FormatError { case: FormatCase::InvalidArc, line: total });
            }
            proof {
                let adj = self.graph.adj();
                lemma_add_edge_well_formed(adj, tail, head, distance.unwrap(), max_speed.unwrap());
                let a1 = adj.update(tail as int, adj[tail as int].push(new_arc(tail, head, distance.unwrap(), max_speed.unwrap())));
                lemma_total_arcs_push(adj, tail as int, new_arc(tail, head, distance.unwrap(), max_speed.unwrap()));
                lemma_total_arcs_push(a1, head as int, new_arc(head, tail, distance.unwrap(), max_speed.unwrap()));
            }
            self.add_edge(tail, head, distance.unwrap(), max_speed.unwrap());
            self.line_number = ln;
            self.total_line_number = total;
            return Ok(());
        }
        Err(Error::FormatError { case: FormatCase::AdditionalLines, line: total })
    }

    /// Ends the input: the graph, if every declared node and arc was read.
    pub fn finish(self) -> (r: Result<Graph, Error>)
        requires
            self.inv(),
        ensures
            match finish_state(self.model()) {
                Ok(st) => r matches Ok(g) && holds_state(g, st) && g.well_formed() && g.nodes.len() == st.node_count
                    && total_arcs(g.adj()) == 2 * st.arc_count,
                Err(e) => r == Err::<Graph, Error>(e),
            },
    {
        if self.line_number < 2 || self.line_number - 2 < self.node_count
            || self.line_number - 2 - self.node_count < self.arc_count {
            return Err(Error::FormatError { case: FormatCase::General, line: self.total_line_number });
        }
        proof {
            assert forall|i: int| 0 <= i < self.graph.nodes.len() implies (#[trigger] self.graph.nodes@[i]).id == i by {}
        }
        Ok(self.graph)
    }
}

/// Reads a graph from the lines of its text, which may come from several
/// inputs read one after another. On success the graph holds exactly the
/// declared nodes, and each declared edge as two arcs of opposite direction.
pub fn read_graph_from_lines(lines: &Vec<Vec<u8>>) -> (r: Result<Graph, Error>)
    requires
        lines.len() < usize::MAX,
    ensures
        match read_spec(lines_view(lines@)) {
            Ok(st) => r matches Ok(g) && holds_state(g, st) && g.well_formed() && g.nodes.len() == st.node_count
                && total_arcs(g.adj()) == 2 * st.arc_count,
            Err(e) => r == Err::<Graph, Error>(e),
        },
{
    let mut reader = GraphReader::new();
    let mut i: usize = 0;
    while i < lines.len()
        invariant
            i <= lines.len() < usize::MAX,
            reader.inv(),
            reader.total_line_number == i,
            run(lines_view(lines@).take(i as int)) == Ok::<ReadState, Error>(reader.model()),
        decreases lines.len() - i,
    {
        let ghost prefix = lines_view(lines@).take(i as int + 1);
        assert(prefix.drop_last() =~= lines_view(lines@).take(i as int));
        assert(prefix.last() == lines@[i as int]@);
        match reader.read_line(&lines[i]) {
            Err(e) => {
                proof {
                    lemma_run_error_stays(lines_view(lines@), i as int + 1, e);
                }
                return Err(e);
            },
            Ok(()) => {},
        }
        i = i + 1;
    }
    assert(lines_view(lines@).take(lines.len() as int) =~= lines_view(lines@));
    reader.finish()
}

/// Once reading fails, reading more lines gives the same error.
proof fn lemma_run_error_stays(lines: Seq<Seq<u8>>, k: int, e: Error)
    requires
        0 <= k <= lines.len(),
        run(lines.take(k)) == Err::<ReadState, Error>(e),
    ensures
        read_spec(lines) == Err::<ReadState, Error>(e),
    decreases lines.len() - k,
{
    if k == lines.len() {
        assert(lines.take(k) =~= lines);
    } else {
        assert(lines.take(k + 1).drop_last() =~= lines.take(k));
        lemma_run_error_stays(lines, k + 1, e);
    }
}

} // verus!
