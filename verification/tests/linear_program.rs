use connected_cut::instance::{complete_graph, parse_instance, Instance};
use connected_cut::lp::{create_basic_lp, create_lp, lp_with_distances, EdgeSet, LpError};
use std::collections::HashMap;
use connected_cut::scan::{update_edges, EntryError};
use petgraph::algo::dijkstra;
use petgraph::graph::UnGraph;
use petgraph::visit::EdgeRef;

/// The program written statement by statement with `petgraph` calls, with the forced edges in the
/// given order; the flow over each direction of an edge is bounded by the capacity less the distance
/// of the vertex it leads to.
fn reference_lp(ilp: bool, graph: &UnGraph<(), ()>, c: u32, s: u32, forced: &[(usize, usize)]) -> String {
    let mut file = String::new();
    let mut first = true;
    let distances = dijkstra(graph, s.into(), None, |_| 1u32);
    file += &format!("Minimize\n");
    for e in graph.edge_indices() {
        if !first {
            file += &format!(" + ");
        }
        first = false;
        if let Some((from, to)) = graph.edge_endpoints(e) {
            file += &format!("x_{0}_{1} + x_{1}_{0}", from.index(), to.index());
        }
    }
    file += &format!("\n");
    file += &format!("Subject to\n");
    for (from, to) in forced {
        file += &format!("x_{0}_{1} = 0\n", from, to);
    }
    for e in graph.edge_indices() {
        if let Some((from, to)) = graph.edge_endpoints(e) {
            file += &format!("x_{0}_{1} - f_{0} + f_{1} >= 0\n", from.index(), to.index());
            file += &format!("x_{0}_{1} - f_{1} + f_{0} >= 0\n", from.index(), to.index());
            file += &format!("x_{1}_{0} - f_{0} + f_{1} >= 0\n", from.index(), to.index());
            file += &format!("x_{1}_{0} - f_{1} + f_{0} >= 0\n", from.index(), to.index());
            let m_forward = c - distances[&to];
            let m_backward = c - distances[&from];
            file += &format!("f_{1}_{2} + {0} x_{1}_{2} <= {0}\n", m_forward, from.index(), to.index());
            file += &format!("f_{2}_{1} + {0} x_{2}_{1} <= {0}\n", m_backward, from.index(), to.index());
        }
    }
    first = true;
    for e in graph.edges(s.into()) {
        let from = e.source().index();
        let to = e.target().index();
        if !first {
            file += &format!(" + ");
        }
        first = false;
        if from == s as usize {
            file += &format!("f_{}_{}", s, to);
        } else {
            file += &format!("f_{}_{}", s, from);
        }
    }
    file += &format!(" = {}\n", c - 1);
    file += &format!("f_{} = 1\n", s);
    for v in graph.node_indices() {
        first = true;
        if v != s.into() {
            for e in graph.edges(v) {
                if !first {
                    file += &format!(" + ");
                }
                first = false;
                let (from, to) = (e.source(), e.target());
                if from == v {
                    file += &format!("f_{0}_{1} - f_{1}_{0}", to.index(), v.index());
                } else {
                    file += &format!("f_{0}_{1} - f_{1}_{0}", from.index(), v.index());
                }
            }
            file += &format!(" - f_{} = 0\n", v.index());
        }
    }
    first = true;
    for v in graph.node_indices() {
        if !first {
            file += &format!(" + ");
        }
        first = false;
        file += &format!("f_{}", v.index());
    }
    file += &format!(" = {}\n", c);
    for v in graph.node_indices() {
        if v != s.into() {
            file += &format!("{} f_{}", (c - distances[&v]), v.index());
            for e in graph.edges(v) {
                let (from, to) = (e.source(), e.target());
                if from == v {
                    file += &format!(" - f_{}_{}", to.index(), v.index());
                } else {
                    file += &format!(" - f_{}_{}", from.index(), v.index());
                }
            }
            file += &format!(" >= 0\n");
        }
    }
    file += &format!("Bounds\n");
    for v in graph.node_indices() {
        file += &format!("0 <= f_{} <= 1\n", v.index());
    }
    for e in graph.edge_indices() {
        if let Some((from, to)) = graph.edge_endpoints(e) {
            file += &format!("f_{}_{} >= 0\n", from.index(), to.index());
            file += &format!("f_{}_{} >= 0\n", to.index(), from.index());
            file += &format!("0 <= x_{}_{} <= 1\n", from.index(), to.index());
            file += &format!("0 <= x_{}_{} <= 1\n", to.index(), from.index());
        }
    }
    if ilp {
        file += &format!("Generals\n");
        for v in graph.node_indices() {
            file += &format!("f_{} ", v.index());
        }
        for e in graph.edge_indices() {
            if let Some((from, to)) = graph.edge_endpoints(e) {
                file += &format!("x_{0}_{1} x_{1}_{0} ", from.index(), to.index());
            }
        }
        file += &format!("\n");
    }
    file += &format!("End\n");
    file
}

#[test]
fn single_edge_program() {
    let inst = parse_instance("s=0 k=2 [0;1]").unwrap();
    let text = create_lp(false, &inst, &EdgeSet::new()).unwrap();
    let expected = "Minimize\nx_0_1 + x_1_0\nSubject to\n\
x_0_1 - f_0 + f_1 >= 0\nx_0_1 - f_1 + f_0 >= 0\nx_1_0 - f_0 + f_1 >= 0\nx_1_0 - f_1 + f_0 >= 0\n\
f_0_1 + 1 x_0_1 <= 1\nf_1_0 + 2 x_1_0 <= 2\n\
f_0_1 = 1\nf_0 = 1\nf_0_1 - f_1_0 - f_1 = 0\nf_0 + f_1 = 2\n1 f_1 - f_0_1 >= 0\n\
Bounds\n0 <= f_0 <= 1\n0 <= f_1 <= 1\nf_0_1 >= 0\nf_1_0 >= 0\n0 <= x_0_1 <= 1\n0 <= x_1_0 <= 1\nEnd\n";
    assert_eq!(text, expected);
}

#[test]
fn programs_match_reference() {
    let texts = [
        "s=0 k=3 [0;1] [1;2] [2;0] [2;3]",
        "s=2 k=4 [0;1] [1;2] [2;3] [3;4] [4;0] [1;3]",
        "s=1 k=5 [0;1] [0;1] [1;1] [1;2] [2;3] [3;4] [4;5]",
        "s=0 k=9 [0;1] [0;2] [0;3] [1;4] [2;4] [3;5] [5;6]",
    ];
    for text in texts.iter() {
        let inst = parse_instance(text).unwrap();
        for ilp in [false, true] {
            let ours = create_lp(ilp, &inst, &EdgeSet::new()).unwrap();
            let theirs = reference_lp(ilp, inst.graph(), inst.capacity(), inst.source(), &[]);
            assert_eq!(ours, theirs, "{}", text);
        }
    }
}

#[test]
fn forced_edges_are_written() {
    let inst = parse_instance("s=0 k=3 [0;1] [1;2] [2;0]").unwrap();
    let mut edges = EdgeSet::new();
    edges.insert((1, 2));
    edges.insert((2, 1));
    edges.insert((1, 2));
    assert_eq!(edges.len(), 2);
    assert_eq!(edges.pairs(), &vec![(1, 2), (2, 1)]);
    let ours = create_lp(false, &inst, &edges).unwrap();
    let theirs = reference_lp(false, inst.graph(), 3, 0, &[(1, 2), (2, 1)]);
    assert_eq!(ours, theirs);
    assert!(ours.contains("Subject to\nx_1_2 = 0\nx_2_1 = 0\n"));
}

#[test]
fn integer_program_adds_generals() {
    let inst = parse_instance("s=0 k=2 [0;1] [1;2]").unwrap();
    let lp = create_lp(false, &inst, &EdgeSet::new()).unwrap();
    let ilp = create_lp(true, &inst, &EdgeSet::new()).unwrap();
    let body = &lp[..lp.len() - "End\n".len()];
    assert_eq!(ilp, format!("{}Generals\nf_0 f_1 f_2 x_0_1 x_1_0 x_1_2 x_2_1 \nEnd\n", body));
}

#[test]
fn bounds_follow_distances() {
    // A path 0 - 1 - 2 - 3: each direction is bounded by 5 less the distance of its head.
    let inst = parse_instance("s=0 k=5 [0;1] [1;2] [2;3]").unwrap();
    let lp = create_lp(false, &inst, &EdgeSet::new()).unwrap();
    assert!(lp.contains("f_0_1 + 4 x_0_1 <= 4\nf_1_0 + 5 x_1_0 <= 5\n"));
    assert!(lp.contains("f_1_2 + 3 x_1_2 <= 3\nf_2_1 + 4 x_2_1 <= 4\n"));
    assert!(lp.contains("f_2_3 + 2 x_2_3 <= 2\nf_3_2 + 3 x_3_2 <= 3\n"));
    assert!(lp.contains("3 f_2 - f_1_2 - f_3_2 >= 0\n") || lp.contains("3 f_2 - f_3_2 - f_1_2 >= 0\n"));
    assert!(lp.contains("2 f_3 - f_2_3 >= 0\n"));
}

#[test]
fn refuses_source_outside_graph() {
    let inst = parse_instance("s=5 k=2 [0;1]").unwrap();
    assert_eq!(create_lp(false, &inst, &EdgeSet::new()).err(), Some(LpError::SourceNotInGraph));
}

#[test]
fn refuses_unreachable_vertex() {
    let inst = parse_instance("s=0 k=2 [0;1] [2;3]").unwrap();
    assert_eq!(create_lp(false, &inst, &EdgeSet::new()).err(), Some(LpError::Unreachable));
}

#[test]
fn refuses_small_capacity() {
    let inst = parse_instance("s=0 k=0 [0;1]").unwrap();
    assert_eq!(create_lp(false, &inst, &EdgeSet::new()).err(), Some(LpError::CapacityTooSmall));
    let inst = parse_instance("s=0 k=2 [0;1] [1;2] [2;3]").unwrap();
    assert_eq!(create_lp(false, &inst, &EdgeSet::new()).err(), Some(LpError::CapacityTooSmall));
    let inst = parse_instance("s=0 k=3 [0;1] [1;2] [2;3]").unwrap();
    assert!(create_lp(false, &inst, &EdgeSet::new()).is_ok());
}

#[test]
fn basic_program_of_complete_graph() {
    let inst = Instance::new(complete_graph(3), 2, 0);
    let text = create_basic_lp(false, &inst).unwrap();
    assert!(text.starts_with("Minimize\nx_0_1 + x_1_0 + x_0_2 + x_2_0 + x_1_2 + x_2_1\nSubject to\n"));
    assert!(text.contains("f_0 + f_1 + f_2 = 2\n"));
    assert!(!text.contains("f_0_1 + "));
    assert!(text.contains("1 f_1 - "));
    assert!(text.ends_with("0 <= x_2_1 <= 1\nEnd\n"));
    let ilp = create_basic_lp(true, &inst).unwrap();
    assert!(ilp.ends_with("Generals\nf_0 f_1 f_2 x_0_1 x_1_0 x_0_2 x_2_0 x_1_2 x_2_1 \nEnd\n"));
}

#[test]
fn basic_program_refuses_zero_capacity() {
    let inst = Instance::new(complete_graph(3), 0, 0);
    assert_eq!(create_basic_lp(false, &inst).err(), Some(LpError::CapacityTooSmall));
}

#[test]
fn forced_edges_from_text() {
    let mut edges = EdgeSet::new();
    assert!(update_edges("x_1_2 = 0\nx_3_4 = 0\nx_5_6 = 1\nx_2_1 = 0\n", &mut edges).is_ok());
    assert_eq!(edges.pairs(), &vec![(1, 2), (2, 1), (3, 4), (4, 3)]);
    assert!(edges.contains((4, 3)));
    assert!(!edges.contains((5, 6)));
}

#[test]
fn forced_edges_stay_symmetric() {
    let mut edges = EdgeSet::new();
    update_edges("x_7_8 = 0 x_8_9 = 0 x_9_7 = 0", &mut edges).unwrap();
    for &(a, b) in edges.pairs() {
        assert!(edges.contains((b, a)));
    }
    assert_eq!(edges.len(), 6);
}

#[test]
fn forced_edges_refuse_huge_numbers() {
    let mut edges = EdgeSet::new();
    edges.insert((0, 1));
    let r = update_edges("x_1_2 = 0 x_99999999999999999999999_1 = 0", &mut edges);
    assert_eq!(r, Err(EntryError::BadVertexNumber));
    assert_eq!(edges.pairs(), &vec![(0, 1)]);
}

#[test]
fn program_for_given_distances() {
    let inst = parse_instance("s=0 k=5 [0;1] [1;2]").unwrap();
    let mut d: HashMap<u32, u32> = HashMap::new();
    d.insert(0, 0);
    d.insert(1, 1);
    d.insert(2, 2);
    assert_eq!(
        lp_with_distances(false, &inst, &EdgeSet::new(), &d).unwrap(),
        create_lp(false, &inst, &EdgeSet::new()).unwrap()
    );
    d.insert(2, 1);
    let text = lp_with_distances(false, &inst, &EdgeSet::new(), &d).unwrap();
    assert!(text.contains("f_1_2 + 4 x_1_2 <= 4\nf_2_1 + 4 x_2_1 <= 4\n"));
    assert!(text.contains("4 f_2 - f_1_2 >= 0\n"));
    d.insert(2, 6);
    assert_eq!(lp_with_distances(false, &inst, &EdgeSet::new(), &d).err(), Some(LpError::CapacityTooSmall));
    d.remove(&2);
    assert_eq!(lp_with_distances(false, &inst, &EdgeSet::new(), &d).err(), Some(LpError::Unreachable));
}

#[test]
fn forced_edges_read_back_from_program() {
    let inst = parse_instance("s=0 k=3 [0;1] [1;2] [2;0] [2;3]").unwrap();
    let mut forced = EdgeSet::new();
    forced.insert((3, 2));
    forced.insert((0, 1));
    for ilp in [false, true] {
        let text = create_lp(ilp, &inst, &forced).unwrap();
        let mut read = EdgeSet::new();
        assert!(update_edges(&text, &mut read).is_ok());
        assert_eq!(read.pairs(), &vec![(3, 2), (2, 3), (0, 1), (1, 0)]);
        let basic = create_basic_lp(ilp, &parse_instance("s=0 k=3 [0;1] [1;2] [2;0]").unwrap()).unwrap();
        let mut none = EdgeSet::new();
        assert!(update_edges(&basic, &mut none).is_ok());
        assert_eq!(none.len(), 0);
    }
}
