use sally::models::digraph::search_strategy::GraphTraversal;
use sally::models::digraph::{Digraph, WeightMatrix};
use sally::models::node::decimal_text;

/// A chain whose edges are made by value, so that each lands once in the adjacency lists.
fn linked(weights: &[i64]) -> Digraph<usize, i64> {
    let mut g: Digraph<usize, i64> = Digraph::new();
    for i in 0..=weights.len() {
        g.make_node(i);
    }
    for (i, w) in weights.iter().enumerate() {
        g.make_edge(&i, &(i + 1), *w);
    }
    g
}

fn chain(weights: &[i64]) -> Digraph<usize, i64> {
    let mut g: Digraph<usize, i64> = Digraph::new();
    for i in 0..=weights.len() {
        g.make_node(i);
    }
    for (i, w) in weights.iter().enumerate() {
        g.connect(i, i + 1, *w);
    }
    g
}

#[test]
fn make_node_numbers_nodes_in_order() {
    let mut g: Digraph<&str, i64> = Digraph::new();
    assert_eq!(g.make_node("a"), 0);
    assert_eq!(g.make_node("b"), 1);
    assert_eq!(g.n_nodes(), 2);
    assert_eq!(g.node_at(1).element, "b");
    assert_eq!(g.node_at(1).index, 1);
    assert_eq!(g.nodes_iter().len(), 2);
}

#[test]
fn connect_refuses_a_second_edge_but_lists_it_again() {
    let mut g = chain(&[]);
    g.make_node(1);
    assert_eq!(g.connect(0, 1, 5), Some((0, 1)));
    assert_eq!(g.node_at(0).downstream_nodes(), vec![1, 1]);
    assert_eq!(g.node_at(1).upstream_nodes(), vec![0, 0]);
    assert_eq!(g.connect(0, 1, 7), None);
    assert_eq!(g.edge_at(0, 1).unwrap().weight, 5);
    assert_eq!(g.node_at(0).downstream_nodes(), vec![1, 1, 1]);
    assert_eq!(g.node_at(1).upstream_nodes(), vec![0, 0, 0]);
    assert!(g.has_edge(0, 1));
    assert!(!g.has_edge(1, 0));
    assert!(g.are_connected(0, 1));
    assert!(g.get_connection(1, 0).is_none());
}

#[test]
fn make_edge_finds_nodes_by_value() {
    let mut g: Digraph<&str, i64> = Digraph::new();
    g.make_node("a");
    g.make_node("b");
    assert_eq!(g.make_edge(&"a", &"b", 3), Some((0, 1)));
    assert_eq!(g.make_edge(&"a", &"b", 4), None);
    assert_eq!(g.make_edge(&"a", &"z", 4), None);
    assert_eq!(g.get_node(&"b"), Some(1));
    assert_eq!(g.get_node(&"z"), None);
}

#[test]
fn remove_edge_at_takes_the_edge_out_of_both_lists() {
    let mut g = chain(&[1, 2]);
    g.remove_edge_at((0, 1));
    assert!(!g.has_edge(0, 1));
    assert!(g.has_edge(1, 2));
    assert_eq!(g.node_at(0).downstream_nodes(), vec![1]);
    assert_eq!(g.node_at(1).upstream_nodes(), vec![0]);
    let mut h = linked(&[1]);
    h.remove_edge_at((0, 1));
    assert!(h.node_at(0).downstream_nodes().is_empty());
    assert!(h.node_at(1).upstream_nodes().is_empty());
    g.disconnect(1, 2);
    assert!(!g.has_edge(1, 2));
    g.remove_edge_at((2, 0));
    assert_eq!(g.n_nodes(), 3);
}

#[test]
fn remove_node_drops_its_edges() {
    let mut g = chain(&[1, 2, 3]);
    g.connect(3, 0, 4);
    g.remove_node(1);
    assert!(!g.has_edge(0, 1));
    assert!(!g.has_edge(1, 2));
    assert!(g.has_edge(2, 3));
    assert!(g.has_edge(3, 0));
    assert_eq!(g.n_nodes(), 4);
    assert_eq!(g.node_at(1).downstream_nodes(), vec![2]);
    assert_eq!(g.node_at(1).upstream_nodes(), vec![0]);
    assert_eq!(g.node_at(0).downstream_nodes(), vec![1]);
    assert_eq!(g.node_at(2).upstream_nodes(), vec![1]);
    assert_eq!(g.node_at(3).upstream_nodes(), vec![2, 2]);
}

#[test]
fn find_lists_the_matching_nodes_in_order() {
    let g: Digraph<usize, i64> = Digraph::from(vec![5, 8, 6, 9]);
    assert_eq!(g.find(|x: &usize| *x > 5), vec![1, 2, 3]);
    assert_eq!(g.find_first(|x: &usize| *x > 5), Some(1));
    assert_eq!(g.find_first(|x: &usize| *x > 50), None);
}

#[test]
fn edges_iter_walks_edges_by_key() {
    let mut g = chain(&[1, 2]);
    g.connect(0, 2, 9);
    let weights: Vec<i64> = g.edges_iter().iter().map(|e| e.weight).collect();
    assert_eq!(weights, vec![1, 9, 2]);
}

#[test]
fn make_edge_when_links_every_matching_pair_once() {
    let mut g: Digraph<usize, i64> = Digraph::from(vec![1, 2, 3]);
    let made = g.make_edge_when(|a: &usize, b: &usize| a < b, 0);
    assert_eq!(made, vec![(0, 1), (0, 2), (1, 2)]);
    let again = g.make_edge_when(|a: &usize, b: &usize| a < b, 0);
    assert!(again.is_empty());
}

#[test]
fn weight_matrix_has_zero_diagonal_and_no_edge_elsewhere() {
    let g = chain(&[4]);
    let m = g.get_matrix();
    assert_eq!(m.shape(), (2, 2));
    assert_eq!(m.cell(0, 0), 0);
    assert_eq!(m.cell(0, 1), 4);
    assert_eq!(m.cell(1, 0), i64::MAX);
}

#[test]
fn floyd_warshall_gives_all_shortest_distances() {
    let mut g = chain(&[1, 2]);
    g.connect(0, 2, 10);
    let d = g.all_shortest_paths();
    assert_eq!(d.cell(0, 2), 3);
    assert_eq!(d.cell(0, 1), 1);
    assert_eq!(d.cell(2, 0), i64::MAX);
    let doubled = g.floyd_warshall(|w: &i64| 2 * *w, 100);
    assert_eq!(doubled.cell(0, 2), 6);
    assert_eq!(doubled.cell(1, 0), 100);
}

#[test]
fn is_positive_checks_every_weight() {
    let g = chain(&[1, 0]);
    assert!(g.is_positive());
    let h = chain(&[1, -1]);
    assert!(!h.is_positive());
    assert!(h.is_positively_weighted(|w: &i64| w.abs()));
}

#[test]
fn create_relations_reads_the_matrix_by_columns() {
    let mut g: Digraph<usize, i64> = Digraph::from(vec![0, 1]);
    let mut m = WeightMatrix::new(2, i64::MAX);
    m.set_cell(0, 0, 0);
    m.set_cell(1, 1, 0);
    m.set_cell(1, 0, 7);
    g.create_relations(m);
    assert!(g.has_edge(0, 1));
    assert!(!g.has_edge(1, 0));
    assert_eq!(g.edge_at(0, 1).unwrap().weight, 7);
    assert!(!g.has_edge(0, 0));
}

#[test]
fn from_matrix_and_shortest_digraph() {
    let mut m = WeightMatrix::new(3, i64::MAX);
    for i in 0..3 {
        m.set_cell(i, i, 0);
    }
    m.set_cell(1, 0, 1);
    m.set_cell(2, 1, 2);
    let g: Digraph<usize, i64> = Digraph::from_matrix(vec![0, 1, 2], m);
    assert!(g.has_edge(0, 1));
    assert!(g.has_edge(1, 2));
    assert!(!g.has_edge(0, 2));
    let s = g.shortest_digraph();
    assert_eq!(s.n_nodes(), 3);
    assert_eq!(s.edge_at(2, 0).unwrap().weight, 3);
    assert_eq!(s.edge_at(1, 0).unwrap().weight, 1);
    assert!(!s.has_edge(0, 2));
}

#[test]
fn labelize_names_edge_ends_by_their_elements() {
    let mut g = chain(&[1]);
    g.connect(1, 0, 2);
    g.labelize();
    let e = g.edge_at(0, 1).unwrap();
    assert_eq!(e.from.as_ref().unwrap().as_str(), "0");
    assert_eq!(e.to.as_ref().unwrap().as_str(), "1");
    assert_eq!(e.weight, 1);
    assert_eq!(g.node_at(0).downstream_nodes(), vec![1]);
    assert_eq!(g.node_at(0).upstream_nodes(), vec![1]);
}

#[test]
fn decimal_text_writes_numbers() {
    assert_eq!(decimal_text(0), "0");
    assert_eq!(decimal_text(7), "7");
    assert_eq!(decimal_text(1204), "1204");
}

#[test]
fn dijkstra_finds_shortest_paths() {
    let mut g = chain(&[1, 2, 3]);
    g.connect(0, 2, 10);
    g.connect(0, 3, 4);
    let (d, traces) = g.shortest_paths_from(0);
    assert_eq!(d, vec![0, 1, 3, 4]);
    assert_eq!(traces[2], vec![(0, 1), (1, 2)]);
    assert_eq!(traces[3], vec![(0, 3)]);
    assert!(traces[0].is_empty());
}

#[test]
fn dijkstra_leaves_unreachable_nodes_at_no_edge() {
    let g = chain(&[5]);
    let (d, traces) = g.shortest_paths_from(1);
    assert_eq!(d, vec![i64::MAX, 0]);
    assert!(traces[0].is_empty());
    assert_eq!(g.shortest_path(1, 0), None);
}

#[test]
fn shortest_path_gives_length_and_edges() {
    let mut g = chain(&[1, 2, 3]);
    g.connect(0, 3, 10);
    assert_eq!(g.shortest_path(0, 3), Some((6, vec![(0, 1), (1, 2), (2, 3)])));
    assert_eq!(g.shortest_path(2, 2), Some((0, vec![])));
    let r = g.shortest_weighted_path(0, 3, |w: &i64| *w * 3, 20);
    assert_eq!(r, Some((18, vec![(0, 1), (1, 2), (2, 3)])));
    assert_eq!(g.shortest_weighted_path(0, 3, |w: &i64| *w * 10, 50), None);
    let (d, _) = g.shortest_weighted_paths_from(0, |_w: &i64| 1, 100);
    assert_eq!(d, vec![0, 1, 2, 1]);
}

#[test]
fn has_loop_sees_a_cycle() {
    let mut g = linked(&[1, 1]);
    assert!(!g.has_loop());
    g.make_edge(&2, &0, 1);
    assert!(g.has_loop());
}

#[test]
fn has_loop_counts_a_node_reached_twice() {
    assert!(chain(&[1]).has_loop());
    let mut g = linked(&[]);
    g.make_node(1);
    g.make_edge(&1, &0, 1);
    assert!(g.has_loop());
}

#[test]
fn traversals_follow_the_adjacency_lists() {
    let mut g = linked(&[1]);
    g.make_node(2);
    g.make_edge(&0, &2, 1);
    let mut bfs = GraphTraversal::bfs(&g, 0);
    let mut order = Vec::new();
    while let Some(x) = bfs.next() {
        order.push(x);
    }
    assert_eq!(order, vec![0, 1, 2]);
    let mut dfs = GraphTraversal::dfs(&g, 0);
    let mut order = Vec::new();
    while let Some(x) = dfs.next() {
        order.push(x);
    }
    assert_eq!(order, vec![0, 2, 1]);
    let mut random = GraphTraversal::random(&g, 0);
    let mut seen = Vec::new();
    while let Some(x) = random.next() {
        seen.push(x);
    }
    seen.sort();
    assert_eq!(seen, vec![0, 1, 2]);
}

#[test]
fn depth_first_takes_the_last_found_neighbour_and_breadth_first_goes_by_levels() {
    let mut g: Digraph<usize, i32> = Digraph::from(vec![0usize, 1, 2, 3]);
    g.make_edge(&0, &1, 1);
    g.make_edge(&0, &2, 1);
    g.make_edge(&1, &3, 1);
    let mut dfs = GraphTraversal::dfs(&g, 0);
    let mut order = Vec::new();
    while let Some(x) = dfs.next() {
        order.push(x);
    }
    assert_eq!(order, vec![0, 2, 1, 3]);
    let mut bfs = GraphTraversal::bfs(&g, 0);
    let mut order = Vec::new();
    while let Some(x) = bfs.next() {
        order.push(x);
    }
    assert_eq!(order, vec![0, 1, 2, 3]);
}
