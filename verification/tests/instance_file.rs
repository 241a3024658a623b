use connected_cut::instance::{complete_graph, parse_instance, Instance, InstanceError};
use connected_cut::generator::{clique, comet, star, tree};
use petgraph::graph::{EdgeIndex, UnGraph};
use petgraph::visit::EdgeRef;
use regex::Regex;

fn edges_of(g: &UnGraph<(), ()>) -> Vec<(u32, u32)> {
    g.edge_indices()
        .map(|e| {
            let (a, b) = g.edge_endpoints(e).unwrap();
            (a.index() as u32, b.index() as u32)
        })
        .collect()
}

/// What the regular expressions of the instance format find in a text.
fn regex_reading(contents: &str) -> (Vec<(u32, u32)>, u32, u32) {
    let edge_regex = Regex::new(r"\[\s*([0-9]*)\s*;\s*([0-9]*)\s*\]").unwrap();
    let source_regex = Regex::new(r"s\s*=\s*([0-9]+)").unwrap();
    let capacity_regex = Regex::new(r"k\s*=\s*([0-9]+)").unwrap();
    let mut raw_edges: Vec<(u32, u32)> = vec![];
    for (_, [id_from, id_to]) in edge_regex.captures_iter(contents).map(|c| c.extract()) {
        raw_edges.push((id_from.parse().unwrap(), id_to.parse().unwrap()));
    }
    let source: u32 = (&source_regex.captures(contents).unwrap()[1]).parse().unwrap();
    let capacity: u32 = (&capacity_regex.captures(contents).unwrap()[1]).parse().unwrap();
    (raw_edges, source, capacity)
}

fn reading(contents: &str) -> (Vec<(u32, u32)>, u32, u32, usize) {
    let inst = parse_instance(contents).unwrap();
    (edges_of(inst.graph()), inst.source(), inst.capacity(), inst.graph().node_count())
}

#[test]
fn reads_simple_instance() {
    let (edges, s, k, n) = reading("s=0 k=3\n[0;1]\n[1;2]\n[2;0]\n");
    assert_eq!(edges, vec![(0, 1), (1, 2), (2, 0)]);
    assert_eq!(s, 0);
    assert_eq!(k, 3);
    assert_eq!(n, 3);
}

#[test]
fn reads_like_the_regular_expressions() {
    let texts = [
        "s=0 k=3\n[0;1]\n[1;2]\n",
        "k = 12\n s =  4\n[ 3 ; 4 ]\n[10;\t2]\nnoise [1;1] more\n",
        "[5;6]s=1k=2[6;7]",
        "s=07 k=0010 [0007;8]",
        "s\u{3000}=\u{a0}2 k=1 [1\u{2003};\u{85}2]",
        "ss=3 s=4 k=kk=5 [[1;2]] [1;[2;3]]",
        "[1 2;3] [4;5 6] [7;8] s=1 k=1",
    ];
    for text in texts.iter() {
        let (edges, s, k, n) = reading(text);
        let (r_edges, r_s, r_k) = regex_reading(text);
        assert_eq!(edges, r_edges, "{}", text);
        assert_eq!(s, r_s, "{}", text);
        assert_eq!(k, r_k, "{}", text);
        let expected_nodes = r_edges.iter().map(|&(a, b)| a.max(b) as usize + 1).max().unwrap_or(0);
        assert_eq!(n, expected_nodes, "{}", text);
    }
}

#[test]
fn node_count_follows_largest_endpoint() {
    let (_, _, _, n) = reading("s=0 k=1 [0;9]");
    assert_eq!(n, 10);
    let (edges, _, _, n) = reading("s=0 k=1");
    assert!(edges.is_empty());
    assert_eq!(n, 0);
}

#[test]
fn refuses_empty_endpoint() {
    assert_eq!(parse_instance("s=0 k=1 [;1]").err(), Some(InstanceError::BadEdgeNumber));
    assert_eq!(parse_instance("s=0 k=1 [1; ]").err(), Some(InstanceError::BadEdgeNumber));
}

#[test]
fn refuses_endpoint_beyond_u32() {
    assert_eq!(parse_instance("s=0 k=1 [0;4294967296]").err(), Some(InstanceError::BadEdgeNumber));
}

#[test]
fn refuses_endpoint_u32_max() {
    assert_eq!(parse_instance("s=0 k=1 [0;4294967295]").err(), Some(InstanceError::GraphTooLarge));
}

#[test]
fn refuses_missing_or_bad_source() {
    assert_eq!(parse_instance("k=1 [0;1]").err(), Some(InstanceError::MissingSource));
    assert_eq!(parse_instance("s= k=1 [0;1]").err(), Some(InstanceError::MissingSource));
    assert_eq!(parse_instance("s=4294967296 k=1 [0;1]").err(), Some(InstanceError::BadSource));
}

#[test]
fn refuses_missing_or_bad_capacity() {
    assert_eq!(parse_instance("s=0 [0;1]").err(), Some(InstanceError::MissingCapacity));
    assert_eq!(parse_instance("s=0 k=99999999999 [0;1]").err(), Some(InstanceError::BadCapacity));
}

#[test]
fn first_assignment_wins() {
    let (_, s, k, _) = reading("s=1 k=2 s=3 k=4");
    assert_eq!((s, k), (1, 2));
}

#[test]
fn instance_accessors() {
    let g = complete_graph(3);
    let inst = Instance::new(g, 2, 1);
    assert_eq!(inst.capacity(), 2);
    assert_eq!(inst.source(), 1);
    assert_eq!(inst.graph().edge_count(), 3);
}

#[test]
fn complete_graph_has_every_pair() {
    let g = complete_graph(4);
    assert_eq!(edges_of(&g), vec![(0, 1), (0, 2), (0, 3), (1, 2), (1, 3), (2, 3)]);
    assert_eq!(g.node_count(), 4);
    let g5 = complete_graph(5);
    assert_eq!(g5.edge_count(), 5 * 4 / 2);
}

#[test]
fn complete_graph_of_one_vertex_has_no_edge() {
    let g = complete_graph(1);
    assert_eq!(g.node_count(), 1);
    assert_eq!(g.edge_count(), 0);
    assert_eq!(g.edge_endpoints(EdgeIndex::new(0)), None);
    let g0 = complete_graph(0);
    assert_eq!(g0.node_count(), 0);
    assert_eq!(g0.edge_count(), 0);
}

// The generator texts, written line by line with `format!`.
fn reference_comet(path_len: u64, star_size: u64, k: u64, s: u64) -> String {
    let mut out = format!("s={} k={}\n", s, k);
    for i in 1..path_len {
        out += &format!("[{};{}]\n", i - 1, i);
    }
    out += &format!("[{};{}]\n", 0, path_len);
    for i in 0..star_size {
        out += &format!("[{};{}]\n", path_len, path_len + i + 1);
    }
    out
}

fn reference_clique(n: u64, k: u64, s: u64) -> String {
    let mut out = format!("s={} k={}\n", s, k);
    for i in 0..n {
        for j in i + 1..n {
            out += &format!("[{};{}]\n", i, j);
        }
    }
    out
}

fn reference_star(n: u64, k: u64, s: u64) -> String {
    let mut out = format!("s={} k={}\n", s, k);
    for i in 1..n + 1 {
        out += &format!("[{};{}]\n", 0, i);
    }
    out
}

fn reference_tree(width: u64, height: u64, k: u64, s: u64) -> String {
    let mut out = format!("s={} k={}\n", s, k);
    for i in 1..height {
        for j in u64::pow(width, (i - 1) as u32)..u64::pow(width, i as u32) {
            out += &format!("[{};{}]\n", j, j / width);
        }
    }
    out
}

#[test]
fn generated_texts() {
    assert_eq!(comet(10, 10, 12, 0), reference_comet(10, 10, 12, 0));
    assert_eq!(comet(0, 2, 1, 0), reference_comet(0, 2, 1, 0));
    assert_eq!(comet(3, 0, 1, 0), "s=0 k=1\n[0;1]\n[1;2]\n[0;3]\n");
    assert_eq!(clique(8, 3, 0), reference_clique(8, 3, 0));
    assert_eq!(clique(3, 3, 0), "s=0 k=3\n[0;1]\n[0;2]\n[1;2]\n");
    assert_eq!(star(20, 4, 1), reference_star(20, 4, 1));
    assert_eq!(tree(3, 6, 15, 0), reference_tree(3, 6, 15, 0));
    assert_eq!(tree(2, 3, 1, 0), "s=0 k=1\n[1;0]\n[2;1]\n[3;1]\n");
    assert_eq!(tree(1, 5, 1, 0), "s=0 k=1\n");
    assert_eq!(tree(0, 5, 1, 0), "s=0 k=1\n");
}

#[test]
fn generated_instances_read_back() {
    let text = clique(5, 3, 2);
    let (edges, s, k, n) = reading(&text);
    assert_eq!(edges, edges_of(&complete_graph(5)));
    assert_eq!((s, k, n), (2, 3, 5));
    let text = comet(4, 3, 6, 0);
    let (edges, s, k, _) = reading(&text);
    assert_eq!(edges, vec![(0, 1), (1, 2), (2, 3), (0, 4), (4, 5), (4, 6), (4, 7)]);
    assert_eq!((s, k), (0, 6));
    let text = star(3, 2, 1);
    let (edges, s, k, _) = reading(&text);
    assert_eq!(edges, vec![(0, 1), (0, 2), (0, 3)]);
    assert_eq!((s, k), (1, 2));
}

#[test]
fn edges_at_a_vertex_are_walked_latest_first() {
    let inst = parse_instance("s=0 k=2 [0;1] [1;2] [2;0] [0;0] [0;2]").unwrap();
    let walk = |v: u32| -> Vec<(usize, usize, usize)> {
        inst.graph()
            .edges(v.into())
            .map(|e| (e.id().index(), e.source().index(), e.target().index()))
            .collect()
    };
    assert_eq!(walk(0), vec![(4, 0, 2), (3, 0, 0), (0, 0, 1), (2, 0, 2)]);
    assert_eq!(walk(2), vec![(2, 2, 0), (4, 2, 0), (1, 2, 1)]);
    let g = complete_graph(3);
    let at_one: Vec<(usize, usize, usize)> =
        g.edges(1.into()).map(|e| (e.id().index(), e.source().index(), e.target().index())).collect();
    assert_eq!(at_one, vec![(2, 1, 2), (0, 1, 0)]);
}
