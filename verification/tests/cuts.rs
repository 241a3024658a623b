use connected_cut::apx::{ApxStep, Approximation};
use connected_cut::cut::{apply_marks, cut_marks, directed_edges, size_of_cut, FlowView};
use connected_cut::instance::parse_instance;
use connected_cut::scan::solution_entries;
use std::collections::HashSet;

fn set(v: &[u32]) -> HashSet<u32> {
    v.iter().copied().collect()
}

#[test]
fn cut_size_counts_crossing_edges() {
    let edges = vec![(0, 1), (1, 0), (1, 2), (2, 1), (2, 3), (3, 2)];
    assert_eq!(size_of_cut(&set(&[0, 1]), &edges), 2);
    assert_eq!(size_of_cut(&set(&[1]), &edges), 4);
    assert_eq!(size_of_cut(&set(&[]), &edges), 0);
    assert_eq!(size_of_cut(&set(&[0, 1, 2, 3]), &edges), 0);
}

#[test]
fn cut_and_complement_have_same_size() {
    let edges = vec![(0, 1), (0, 2), (1, 2), (2, 3), (3, 4), (4, 0)];
    let all: HashSet<u32> = (0..5).collect();
    for mask in 0u32..32 {
        let cut: HashSet<u32> = (0..5).filter(|v| mask & (1 << v) != 0).collect();
        let rest: HashSet<u32> = all.difference(&cut).copied().collect();
        assert_eq!(size_of_cut(&cut, &edges), size_of_cut(&rest, &edges));
    }
}

#[test]
fn marks_show_the_cut() {
    let edges = vec![(0, 1), (1, 0), (1, 2), (2, 1)];
    let marks = cut_marks(&set(&[0, 7]), &edges, 3);
    assert_eq!(marks.vertices, vec![true, false, false]);
    assert_eq!(marks.edges, vec![true, true, false, false]);
}

#[test]
fn solution_entries_are_read() {
    let text = "# Objective value = 1\nx_0_1 1\nx_1_0 0\nf_0_1 2.5e-1\nf_1_0 -0\nf_0 1\nf_12 0.75\nf_3_x 1\n";
    let e = solution_entries(text).unwrap();
    let cuts: Vec<(u32, u32, String)> = e.cuts.iter().map(|(a, b, v)| (*a, *b, v.iter().collect())).collect();
    assert_eq!(cuts, vec![(0, 1, "1".to_string()), (1, 0, "0".to_string())]);
    let flows: Vec<(u32, u32, String)> = e.flows.iter().map(|(a, b, v)| (*a, *b, v.iter().collect())).collect();
    assert_eq!(flows, vec![(0, 1, "2.5e-1".to_string()), (1, 0, "-0".to_string())]);
    let nodes: Vec<(u32, String)> = e.nodes.iter().map(|(a, v)| (*a, v.iter().collect())).collect();
    assert_eq!(nodes, vec![(0, "1".to_string()), (12, "0.75".to_string())]);
}

#[test]
fn solution_entries_refuse_huge_numbers() {
    assert!(solution_entries("x_4294967296_1 1\n").is_err());
    assert!(solution_entries("f_4294967296 1\n").is_err());
    assert!(solution_entries("x_4294967295_1 1\n").is_ok());
}

/// Runs the approximation, picking the candidates in turn.
fn run(view: FlowView, capacity: u32, source: u32) -> (HashSet<u32>, usize) {
    let mut apx = Approximation::new(view, capacity, source);
    let mut turn = 0;
    loop {
        match apx.step() {
            ApxStep::Choose(c) => {
                assert!(!c.is_empty());
                apx.pick(c[turn % c.len()]);
                turn += 1;
            }
            ApxStep::Full => {}
            ApxStep::Done => break,
        }
    }
    apx.into_best()
}

fn path_view() -> FlowView {
    // 0 - 1 - 2 - 3, both directions; vertex 3 has no flow.
    FlowView {
        edges: vec![(0, 1), (1, 0), (1, 2), (2, 1), (2, 3), (3, 2)],
        positive: vec![true, true, true, false],
    }
}

#[test]
fn approximation_grows_connected_cut() {
    let (cut, size) = run(path_view(), 2, 0);
    assert_eq!(cut, set(&[0, 1]));
    assert_eq!(size, 2);
}

#[test]
fn approximation_keeps_capacity_vertices() {
    let (cut, size) = run(path_view(), 3, 1);
    assert_eq!(cut.len(), 3);
    assert!(cut.contains(&1));
    assert_eq!(size, size_of_cut(&cut, &path_view().edges));
}

#[test]
fn approximation_with_no_rounds() {
    let (cut, size) = run(path_view(), 0, 0);
    assert!(cut.is_empty());
    assert_eq!(size, usize::MAX);
}

#[test]
fn approximation_offers_candidates() {
    let mut apx = Approximation::new(path_view(), 3, 1);
    match apx.step() {
        ApxStep::Choose(c) => {
            let c: HashSet<u32> = c.into_iter().collect();
            assert_eq!(c, set(&[0, 2]));
        }
        _ => panic!("a round should start"),
    }
    assert!(apx.is_awaiting());
    apx.pick(2);
    match apx.step() {
        ApxStep::Choose(c) => {
            // 3 has no flow, 1 is in the cut already.
            let c: HashSet<u32> = c.into_iter().collect();
            assert_eq!(c, set(&[0, 2]));
        }
        _ => panic!("the round goes on"),
    }
}

#[test]
fn marked_edges_are_the_cut_size() {
    let edges = vec![(0, 1), (1, 0), (1, 2), (2, 1), (2, 0), (0, 2), (2, 3), (3, 2)];
    for mask in 0u32..16 {
        let cut: HashSet<u32> = (0..4).filter(|v| mask & (1 << v) != 0).collect();
        let marks = cut_marks(&cut, &edges, 4);
        let marked = marks.edges.iter().filter(|m| **m).count();
        assert_eq!(marked, size_of_cut(&cut, &edges));
    }
}

#[test]
fn marks_set_the_weights_of_the_cut() {
    let edges = vec![(0, 1), (1, 0), (1, 2), (2, 1)];
    let marks = cut_marks(&set(&[0]), &edges, 3);
    let mut nodes = vec![1.0f64, 0.5, 0.25];
    apply_marks(&mut nodes, &marks.vertices, -1.0);
    assert_eq!(nodes, vec![-1.0, 0.5, 0.25]);
    let mut weights = vec![0.5f64, 0.5, 0.75, 0.75];
    apply_marks(&mut weights, &marks.edges, -1.0);
    assert_eq!(weights, vec![-1.0, -1.0, 0.75, 0.75]);
}

#[test]
fn marking_twice_is_marking_once() {
    let edges = vec![(0, 1), (1, 0), (1, 2), (2, 1), (2, 3), (3, 2)];
    let cut = set(&[1, 2]);
    let mut nodes = vec![1.0f64, 0.5, 0.5, 0.25];
    let mut weights = vec![0.5f64, 0.5, 0.25, 0.25, 0.75, 0.75];
    let marks = cut_marks(&cut, &edges, nodes.len());
    apply_marks(&mut nodes, &marks.vertices, -1.0);
    apply_marks(&mut weights, &marks.edges, -1.0);
    let (once_nodes, once_weights) = (nodes.clone(), weights.clone());
    let again = cut_marks(&cut, &edges, nodes.len());
    apply_marks(&mut nodes, &again.vertices, -1.0);
    apply_marks(&mut weights, &again.edges, -1.0);
    assert_eq!(nodes, once_nodes);
    assert_eq!(weights, once_weights);
    assert_eq!(once_nodes, vec![1.0, -1.0, -1.0, 0.25]);
    assert_eq!(once_weights, vec![-1.0, -1.0, 0.25, 0.25, -1.0, -1.0]);
}

#[test]
fn flow_graph_has_each_edge_both_ways() {
    let inst = parse_instance("s=0 k=2 [0;1] [2;1] [0;1]").unwrap();
    assert_eq!(directed_edges(inst.graph()), vec![(0, 1), (1, 0), (2, 1), (1, 2), (0, 1), (1, 0)]);
}

#[test]
fn capacity_one_gives_the_source() {
    // The source has no neighbour with positive flow, as in a solution for capacity 1.
    let view = FlowView { edges: vec![(0, 1), (1, 0)], positive: vec![true, false] };
    let mut apx = Approximation::new(view, 1, 0);
    assert!(matches!(apx.step(), ApxStep::Full));
    assert!(!apx.is_awaiting());
    assert!(matches!(apx.step(), ApxStep::Done));
    let (cut, size) = apx.into_best();
    assert_eq!(cut, set(&[0]));
    // Both directions of the edge 0 - 1 leave the cut.
    assert_eq!(size, 2);
}

#[test]
fn no_pick_is_asked_for_a_full_cut() {
    let mut apx = Approximation::new(path_view(), 2, 0);
    let mut steps = Vec::new();
    loop {
        match apx.step() {
            ApxStep::Choose(c) => {
                steps.push("choose");
                apx.pick(c[0]);
            }
            ApxStep::Full => steps.push("full"),
            ApxStep::Done => break,
        }
    }
    assert_eq!(steps, vec!["choose", "full", "choose", "full"]);
    assert_eq!(apx.into_best(), (set(&[0, 1]), 2));
}
