use minedesign::model::arrangement::Graph;

fn graph_with_nodes(count: usize) -> Graph {
    let mut graph = Graph::default();
    for expected in 0..count {
        assert_eq!(graph.add_node(), expected);
    }
    graph
}

fn graph_with_edges(count: usize, edges: &[(usize, usize)]) -> Graph {
    let mut graph = graph_with_nodes(count);
    for &(a, b) in edges {
        graph.add_edge(a, b);
    }
    graph
}

#[test]
fn add_edge_lists_each_edge_from_both_ends_once() {
    let graph = graph_with_edges(3, &[(0, 1), (1, 2), (1, 0), (2, 2)]);
    assert_eq!(graph.adjacency, vec![vec![1], vec![0, 2], vec![1]]);
}

#[test]
fn prune_drops_a_cut_that_stops_short() {
    // A triangle with a two-edge spur hanging off node 0.
    let mut graph = graph_with_edges(5, &[(0, 1), (1, 2), (2, 0), (0, 3), (3, 4)]);
    graph.prune_dangling();
    assert_eq!(graph.adjacency, vec![vec![1, 2], vec![0, 2], vec![1, 0], vec![], vec![]]);
}

#[test]
fn prune_removes_a_tree_entirely() {
    let mut graph = graph_with_edges(4, &[(0, 1), (1, 2), (1, 3)]);
    graph.prune_dangling();
    assert_eq!(graph.adjacency, vec![Vec::<usize>::new(); 4]);
}

#[test]
fn prune_keeps_a_bridge_between_cycles() {
    // Two triangles joined by the edge 2-3: no node has a single neighbour.
    let edges = [(0, 1), (1, 2), (2, 0), (2, 3), (3, 4), (4, 5), (5, 3)];
    let mut graph = graph_with_edges(6, &edges);
    let before = graph.adjacency.clone();
    graph.prune_dangling();
    assert_eq!(graph.adjacency, before);
}

#[test]
fn prune_twice_changes_nothing_more() {
    let mut graph = graph_with_edges(6, &[(0, 1), (1, 2), (2, 0), (2, 3), (3, 4), (0, 5)]);
    graph.prune_dangling();
    let once = graph.adjacency.clone();
    graph.prune_dangling();
    assert_eq!(graph.adjacency, once);
}

#[test]
fn components_number_in_order_of_lowest_node() {
    // Node 0 alone; 1-3 a path; 2 and 4 joined.
    let graph = graph_with_edges(5, &[(3, 1), (4, 2)]);
    assert_eq!(graph.components(), vec![0, 1, 2, 1, 2]);
}

#[test]
fn components_of_empty_graph() {
    assert_eq!(Graph::default().components(), Vec::<usize>::new());
}

#[test]
fn next_half_edge_turns_to_the_previous_neighbour() {
    // Node 0 with neighbours 1, 2, 3 in counter-clockwise order.
    let graph = graph_with_edges(4, &[(0, 1), (0, 2), (0, 3)]);
    assert_eq!(graph.next_half_edge((2, 0)), (0, 1));
    assert_eq!(graph.next_half_edge((1, 0)), (0, 3));
    assert_eq!(graph.next_half_edge((3, 0)), (0, 2));
}

#[test]
fn next_half_edge_from_a_stranger_uses_the_first_position() {
    let graph = graph_with_edges(4, &[(0, 1), (0, 2)]);
    assert_eq!(graph.next_half_edge((3, 0)), (0, 2));
}

#[test]
fn cycles_of_a_square_are_its_inside_and_its_outside() {
    // Unit square 0 (0,0), 1 (1,0), 2 (1,1), 3 (0,1), neighbours listed by
    // increasing angle.
    let mut graph = graph_with_edges(4, &[(0, 1), (1, 2), (2, 3), (3, 0)]);
    for (node, order) in [vec![1, 3], vec![2, 0], vec![1, 3], vec![0, 2]].into_iter().enumerate() {
        assert!(graph.set_neighbour_order(node, order));
    }
    assert_eq!(graph.adjacency, vec![vec![1, 3], vec![2, 0], vec![1, 3], vec![0, 2]]);
    assert_eq!(graph.cycles(), vec![vec![0, 1, 2, 3], vec![0, 3, 2, 1]]);
}

#[test]
fn cycles_drop_a_lone_edge() {
    let graph = graph_with_edges(2, &[(0, 1)]);
    assert_eq!(graph.cycles(), Vec::<Vec<usize>>::new());
}

#[test]
fn cycles_of_a_square_split_by_a_diagonal() {
    // Square 0 (0,0), 1 (1,0), 2 (1,1), 3 (0,1) cut from 0 to 2; each list
    // sorted by angle.
    let mut graph = graph_with_edges(4, &[(0, 1), (1, 2), (2, 3), (3, 0), (0, 2)]);
    for (node, order) in [vec![1, 2, 3], vec![2, 0], vec![0, 1, 3], vec![0, 2]].into_iter().enumerate() {
        assert!(graph.set_neighbour_order(node, order));
    }
    assert_eq!(graph.cycles(), vec![vec![0, 1, 2], vec![0, 2, 3], vec![0, 3, 2, 1]]);
}

#[test]
fn neighbour_order_must_list_the_same_neighbours_once() {
    let mut graph = graph_with_edges(3, &[(0, 1), (0, 2)]);
    let before = graph.adjacency.clone();
    assert!(!graph.set_neighbour_order(0, vec![1]));
    assert!(!graph.set_neighbour_order(0, vec![1, 2, 2]));
    assert!(!graph.set_neighbour_order(0, vec![1, 1]));
    assert!(!graph.set_neighbour_order(7, vec![]));
    assert_eq!(graph.adjacency, before);
    assert!(graph.set_neighbour_order(0, vec![2, 1]));
    assert_eq!(graph.adjacency[0], vec![2, 1]);
}
