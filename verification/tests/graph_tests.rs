use cad_solver::graph::{connected_components, generate_graph, remove_degree_one_nodes, simplify_graph, GraphError};

#[test]
fn test_connected_components() {
    let graph = generate_graph(6, &[(0, 4), (1, 3), (3, 2), (2, 1)]).unwrap();
    let components = connected_components(&graph).unwrap();
    assert_eq!(components.len(), 3);
    let components_size: Vec<usize> = components.iter().map(|c| c.get_node_num()).collect();
    assert!(components_size.contains(&1));
    assert!(components_size.contains(&2));
    assert!(components_size.contains(&3));
}

#[test]
fn components_are_ordered_by_smallest_node() {
    let graph = generate_graph(6, &[(0, 4), (1, 3), (3, 2), (2, 1)]).unwrap();
    let components = connected_components(&graph).unwrap();
    let sizes: Vec<usize> = components.iter().map(|c| c.get_node_num()).collect();
    // {0, 4}, {1, 2, 3}, {5}
    assert_eq!(sizes, vec![2, 3, 1]);
    let triangle = &components[1];
    for u in 0..3 {
        let n = triangle.neighbors(triangle.iter_nodes()[u]).unwrap();
        assert_eq!(n.len(), 2);
    }
    assert!(components[2].neighbors(components[2].iter_nodes()[0]).is_none());
}

#[test]
fn generate_graph_reports_bad_edges() {
    assert_eq!(
        generate_graph(3, &[(0, 1), (1, 3)]).err(),
        Some(GraphError::NodeOutOfRange { u: 1, v: 3, n: 3 })
    );
    assert_eq!(generate_graph(3, &[(0, 1), (2, 2), (5, 0)]).err(), Some(GraphError::SelfLoop));
    let g = generate_graph(3, &[(0, 1), (1, 0)]).unwrap();
    assert_eq!(g.neighbors(g.iter_nodes()[0]).unwrap().len(), 1);
    assert!(g.neighbors(g.iter_nodes()[2]).is_none());
}

#[test]
fn pruning_keeps_the_cycle() {
    // a triangle 0-1-2 with a tail 2-3-4
    let graph = generate_graph(5, &[(0, 1), (1, 2), (2, 0), (2, 3), (3, 4)]).unwrap();
    let once = remove_degree_one_nodes(&graph).unwrap();
    assert_eq!(once.get_node_num(), 4);
    let simplified = simplify_graph(&graph).unwrap();
    assert_eq!(simplified.len(), 1);
    assert_eq!(simplified[0].get_node_num(), 3);
    for node in simplified[0].iter_nodes() {
        assert_eq!(simplified[0].neighbors(node).unwrap().len(), 2);
        assert!(node.get_id() < 3);
    }
}

#[test]
fn pruning_a_path_removes_everything() {
    let graph = generate_graph(4, &[(0, 1), (1, 2), (2, 3)]).unwrap();
    let simplified = simplify_graph(&graph).unwrap();
    assert_eq!(simplified.len(), 1);
    assert_eq!(simplified[0].get_node_num(), 0);
}

#[test]
fn pruning_keeps_isolated_nodes() {
    let graph = generate_graph(1, &[]).unwrap();
    let once = remove_degree_one_nodes(&graph).unwrap();
    assert_eq!(once.get_node_num(), 1);
    // a star: the leaves go, the centre stays on its own
    let star = generate_graph(4, &[(0, 1), (0, 2), (0, 3)]).unwrap();
    let simplified = simplify_graph(&star).unwrap();
    assert_eq!(simplified.len(), 1);
    assert_eq!(simplified[0].get_node_num(), 1);
}

#[test]
fn node_ids_are_equal_exactly_when_their_indices_are() {
    let graph = generate_graph(3, &[(0, 1)]).unwrap();
    let a = graph.iter_nodes();
    let b = graph.iter_nodes();
    for x in a.iter() {
        for y in b.iter() {
            assert_eq!(x == y, x.get_id() == y.get_id());
        }
    }
}
