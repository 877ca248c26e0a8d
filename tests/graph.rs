use road_graph::graph::{arc_travel_time, Arc, Graph};
use road_graph::reader::{read_graph_from_lines, Error, FormatCase, GraphReader};

fn lines(text: &str) -> Vec<Vec<u8>> {
    text.lines().map(|l| l.as_bytes().to_vec()).collect()
}

fn read(text: &str) -> Result<Graph, Error> {
    read_graph_from_lines(&lines(text))
}

fn arc(t: usize, h: usize, d: u64, s: u64, c: u64) -> Arc {
    Arc { tail_node_id: t, head_node_id: h, distance: d, max_speed: s, costs: c }
}

fn stored_arcs(g: &Graph) -> usize {
    g.adjacency_lists.iter().map(|l| l.len()).sum()
}

#[test]
fn two_nodes_one_edge() {
    let mut g = read("2\n1\n0 0.0 0.0\n1 1.0 1.0\n0 1 100 50\n").unwrap();
    assert_eq!(g.num_nodes(), 2);
    assert_eq!(g.adjacency_lists[0], vec![arc(0, 1, 100, 50, 100)]);
    assert_eq!(g.adjacency_lists[1], vec![arc(1, 0, 100, 50, 100)]);
    g.set_arc_costs_to_distance();
    assert_eq!(g.adjacency_lists[0][0].costs, 100);
    assert_eq!(g.adjacency_lists[1][0].costs, 100);
    g.set_arc_costs_to_travel_time(100);
    assert_eq!(g.adjacency_lists[0][0].costs, 7);
    assert_eq!(g.adjacency_lists[1][0].costs, 7);
    let (size, members) = g.compute_lcc();
    assert_eq!(size, 2);
    assert_eq!(members, vec![0, 1]);
}

#[test]
fn two_disjoint_edges_first_component_wins() {
    let g = read("4\n2\n0 0 0\n1 0 0\n2 0 0\n3 0 0\n0 1 10 30\n2 3 10 30\n").unwrap();
    let (c0, m0) = g.compute_reachable_nodes(0);
    let (c2, m2) = g.compute_reachable_nodes(2);
    assert_eq!(c0, 2);
    assert_eq!(m0, vec![true, true, false, false]);
    assert_eq!(c2, 2);
    assert_eq!(m2, vec![false, false, true, true]);
    assert_eq!(g.compute_lcc(), (2, vec![0, 1]));
}

#[test]
fn missing_node_line_is_reported_at_arc_line() {
    let e = read("# header\n3\n2\n0 0.0 0.0\n1 1.0 1.0\n0 1 100 50\n1 0 5 5\n").err().unwrap();
    assert_eq!(e, Error::FormatError { case: FormatCase::InvalidNode, line: 6 });
}

#[test]
fn node_and_arc_counts_follow_declaration() {
    let g = read("3\n3\n0 1 1\n1 2 2\n2 3 3\n0 1 5 10\n1 2 6 20\n2 0 7 30\n").unwrap();
    assert_eq!(g.num_nodes(), 3);
    assert_eq!(g.num_arcs(), 3);
    assert_eq!(stored_arcs(&g), 6);
    let g = read("4\n1\n0 0 0\n1 0 0\n2 0 0\n3 0 0\n0 3 1 1\n").unwrap();
    assert_eq!(g.num_nodes(), 4);
    assert_eq!(g.num_arcs(), 4);
    assert_eq!(stored_arcs(&g), 2);
}

#[test]
fn every_edge_is_stored_both_ways() {
    let g = read("3\n2\n0 0 0\n1 0 0\n2 0 0\n0 2 40 60\n2 1 15 90\n").unwrap();
    assert_eq!(g.adjacency_lists[0], vec![arc(0, 2, 40, 60, 40)]);
    assert_eq!(g.adjacency_lists[1], vec![arc(1, 2, 15, 90, 15)]);
    assert_eq!(g.adjacency_lists[2], vec![arc(2, 0, 40, 60, 40), arc(2, 1, 15, 90, 15)]);
}

#[test]
fn self_loop_is_stored_twice_in_one_list() {
    let g = read("1\n1\n0 0 0\n0 0 8 9\n").unwrap();
    assert_eq!(g.adjacency_lists[0], vec![arc(0, 0, 8, 9, 8), arc(0, 0, 8, 9, 8)]);
}

#[test]
fn cost_modes_are_idempotent() {
    let mut g = read("2\n1\n0 0 0\n1 0 0\n0 1 1000 30\n").unwrap();
    g.set_arc_costs_to_travel_time(50);
    let once = g.adjacency_lists.clone();
    assert_eq!(once[0][0].costs, 120);
    g.set_arc_costs_to_travel_time(50);
    assert_eq!(g.adjacency_lists, once);
    g.set_arc_costs_to_distance();
    assert_eq!(g.adjacency_lists[0][0].costs, 1000);
    g.set_arc_costs_to_distance();
    assert_eq!(g.adjacency_lists[0][0].costs, 1000);
    assert_eq!(g.adjacency_lists[1][0].costs, 1000);
}

#[test]
fn travel_time_values() {
    assert_eq!(arc_travel_time(100, 50, 100), 7);
    assert_eq!(arc_travel_time(100, 50, 20), 18);
    assert_eq!(arc_travel_time(1000, 36, 200), 100);
    assert_eq!(arc_travel_time(5, 0, 100), u64::MAX);
    assert_eq!(arc_travel_time(5, 100, 0), u64::MAX);
    assert_eq!(arc_travel_time(u64::MAX, 1, 1), u64::MAX);
    assert_eq!(arc_travel_time(0, 10, 10), 0);
}

#[test]
fn components_partition_the_nodes() {
    let g = read("5\n3\n0 0 0\n1 0 0\n2 0 0\n3 0 0\n4 0 0\n0 1 1 1\n2 3 1 1\n3 4 1 1\n").unwrap();
    let mut seen = vec![0; 5];
    let mut total = 0;
    for s in [0usize, 2] {
        let (count, marked) = g.compute_reachable_nodes(s);
        total += count;
        for (k, m) in marked.iter().enumerate() {
            if *m {
                seen[k] += 1;
            }
        }
    }
    assert_eq!(seen, vec![1, 1, 1, 1, 1]);
    assert_eq!(total, 5);
    assert_eq!(g.compute_lcc(), (3, vec![2, 3, 4]));
}

#[test]
fn lcc_members_reach_each_other() {
    let g = read("6\n4\n0 0 0\n1 0 0\n2 0 0\n3 0 0\n4 0 0\n5 0 0\n5 1 1 1\n1 3 1 1\n4 0 1 1\n3 5 1 1\n").unwrap();
    let (size, members) = g.compute_lcc();
    assert_eq!(size, 3);
    assert_eq!(members, vec![1, 3, 5]);
    for &a in &members {
        let (_, marked) = g.compute_reachable_nodes(a);
        for &b in &members {
            assert!(marked[b]);
        }
    }
}

#[test]
fn isolated_nodes_each_form_a_component() {
    let g = read("3\n0\n0 0 0\n1 0 0\n2 0 0\n").unwrap();
    assert_eq!(g.compute_lcc(), (1, vec![0]));
    assert_eq!(g.compute_reachable_nodes(1), (1, vec![false, true, false]));
}

#[test]
fn empty_graph_has_empty_lcc() {
    let g = read("0\n0\n").unwrap();
    assert_eq!(g.num_nodes(), 0);
    assert_eq!(g.compute_lcc(), (0, vec![]));
}

#[test]
fn comments_blank_lines_and_spaces_are_skipped() {
    let g = read("# a graph\n\n  2 \n# arcs\n1\n\n0 0.5 -1e3\n 1 inf NaN \n#\n0 1 3 4\n\n").unwrap();
    assert_eq!(g.num_nodes(), 2);
    assert_eq!(g.nodes[0].latitude, b"0.5".to_vec());
    assert_eq!(g.nodes[0].longitude, b"-1e3".to_vec());
    assert_eq!(g.nodes[1].latitude, b"inf".to_vec());
    assert_eq!(g.nodes[1].id, 1);
    assert!(!g.nodes[1].settled);
    assert_eq!(g.nodes[1].distance, None);
    assert_eq!(g.nodes[1].traceback_arc, None);
    assert_eq!(stored_arcs(&g), 2);
}

#[test]
fn inputs_read_one_after_another() {
    let mut all = lines("2\n1\n0 0 0\n");
    all.extend(lines("1 1 1\n0 1 2 3\n"));
    let g = read_graph_from_lines(&all).unwrap();
    assert_eq!(g.num_nodes(), 2);
    let mut r = GraphReader::new();
    for l in lines("2\n1\n0 0 0\n") {
        r.read_line(&l).unwrap();
    }
    for l in lines("1 1 1\n0 1 2 3\n") {
        r.read_line(&l).unwrap();
    }
    let h = r.finish().unwrap();
    assert_eq!(h.adjacency_lists, g.adjacency_lists);
}

#[test]
fn error_additional_lines() {
    let e = read("1\n0\n0 1 1\n0 0 0\n").err().unwrap();
    assert_eq!(e, Error::FormatError { case: FormatCase::AdditionalLines, line: 4 });
}

#[test]
fn error_missing_lines_at_end() {
    let e = read("2\n0\n\n0 1 1\n").err().unwrap();
    assert_eq!(e, Error::FormatError { case: FormatCase::General, line: 4 });
    let e = read("").err().unwrap();
    assert_eq!(e, Error::FormatError { case: FormatCase::General, line: 0 });
}

#[test]
fn error_parse_int() {
    assert_eq!(read("x\n").err().unwrap(), Error::ParseIntError { line: 1 });
    assert_eq!(read("1\n-1\n").err().unwrap(), Error::ParseIntError { line: 2 });
    assert_eq!(read("1\n1\n0 0 0\n0 0 1.5 2\n").err().unwrap(), Error::ParseIntError { line: 4 });
    assert_eq!(read("1\n0\n0  0 0\n").err().unwrap(), Error::FormatError { case: FormatCase::InvalidNode, line: 3 });
}

#[test]
fn error_parse_float() {
    assert_eq!(read("1\n0\n0 abc 1\n").err().unwrap(), Error::ParseFloatError { line: 3 });
    assert_eq!(read("1\n0\n0 1 1e\n").err().unwrap(), Error::ParseFloatError { line: 3 });
}

#[test]
fn error_invalid_node() {
    assert_eq!(read("2\n0\n1 0 0\n0 0 0\n").err().unwrap(), Error::FormatError { case: FormatCase::InvalidNode, line: 3 });
    assert_eq!(read("1\n0\n0 0\n").err().unwrap(), Error::FormatError { case: FormatCase::InvalidNode, line: 3 });
}

#[test]
fn error_invalid_arc() {
    assert_eq!(read("1\n1\n0 0 0\n0 0 1\n").err().unwrap(), Error::FormatError { case: FormatCase::InvalidArc, line: 4 });
    assert_eq!(read("1\n1\n0 0 0\n0 5 1 1\n").err().unwrap(), Error::FormatError { case: FormatCase::InvalidArc, line: 4 });
}
