use call_graph::graph::CallGraph;

fn graph(names: &[&str], edges: &[(&str, &str)]) -> CallGraph {
    let mut g = CallGraph::new();
    for n in names {
        g.define_scope(&n.to_string());
    }
    for (a, b) in edges {
        g.add_edge(&a.to_string(), &b.to_string());
    }
    g
}

fn sorted(mut comps: Vec<Vec<usize>>) -> Vec<Vec<usize>> {
    for c in comps.iter_mut() {
        c.sort();
    }
    comps.sort();
    comps
}

fn assert_partition(comps: &Vec<Vec<usize>>, n: usize) {
    let mut seen = vec![0usize; n];
    for c in comps {
        for &v in c {
            assert!(v < n);
            seen[v] += 1;
        }
    }
    assert_eq!(seen, vec![1usize; n]);
}

#[test]
fn weak_components_follow_edges_in_both_directions() {
    let g = graph(&["a", "b", "c", "d", "e"], &[("a", "b"), ("c", "b"), ("d", "e")]);
    let comps = g.graph_components();
    assert_eq!(comps, vec![vec![0usize, 1, 2], vec![3, 4]]);
    assert_partition(&comps, g.len());
}

#[test]
fn weak_components_of_isolated_nodes() {
    let g = graph(&["a", "b", "c"], &[]);
    assert_eq!(g.graph_components(), vec![vec![0usize], vec![1], vec![2]]);
    assert_eq!(CallGraph::new().graph_components(), Vec::<Vec<usize>>::new());
}

#[test]
fn weak_component_is_collected_breadth_first() {
    let g = graph(&["a", "b", "c", "d"], &[("a", "c"), ("c", "d"), ("b", "a")]);
    assert_eq!(g.graph_components(), vec![vec![0usize, 2, 1, 3]]);
}

#[test]
fn strong_components_need_both_directions() {
    let g = graph(
        &["a", "b", "c", "d", "e"],
        &[("a", "b"), ("b", "c"), ("c", "a"), ("c", "d"), ("d", "e"), ("e", "d")],
    );
    let comps = g.strongly_connected_components();
    assert_partition(&comps, g.len());
    assert_eq!(sorted(comps), vec![vec![0usize, 1, 2], vec![3, 4]]);
}

#[test]
fn strong_components_of_a_chain_are_single_nodes() {
    let g = graph(&["a", "b", "c"], &[("a", "b"), ("b", "c"), ("b", "b")]);
    let comps = g.strongly_connected_components();
    assert_partition(&comps, 3);
    assert_eq!(sorted(comps), vec![vec![0usize], vec![1], vec![2]]);
}

#[test]
fn strong_components_come_in_postorder() {
    let g = graph(&["a", "b"], &[("a", "b")]);
    assert_eq!(g.strongly_connected_components(), vec![vec![1usize], vec![0]]);
}

#[test]
fn inline_candidates_have_one_incoming_edge() {
    let g = graph(
        &["a", "b", "c", "d", "e"],
        &[("a", "b"), ("a", "c"), ("b", "c"), ("d", "d"), ("a", "e"), ("e", "e")],
    );
    assert_eq!(g.incoming_counts(), vec![0u8, 1, 2, 1, 2]);
    assert_eq!(g.inline_candidates(), vec![1usize]);
    assert_eq!(g.node_names(&g.inline_candidates()), vec!["b".to_string()]);
}

#[test]
fn edge_list_is_in_call_site_order() {
    let g = graph(&["a", "b"], &[("b", "a"), ("a", "b"), ("a", "a"), ("b", "c")]);
    assert_eq!(g.edge_list(), vec![(0usize, 1usize), (0, 0), (1, 0), (1, 2)]);
}

#[test]
fn defining_a_scope_again_empties_it() {
    let mut g = graph(&["a"], &[("a", "b"), ("b", "a")]);
    g.define_scope(&"a".to_string());
    assert_eq!(g.calls_of(&"a".to_string()), Some(Vec::<String>::new()));
    assert_eq!(g.calls_of(&"b".to_string()), Some(vec!["a".to_string()]));
    assert_eq!(g.find(&"b".to_string()), Some(1));
    assert_eq!(g.find(&"zz".to_string()), None);
    assert_eq!(g.ensure_node(&"b".to_string()), 1);
    assert_eq!(g.ensure_node(&"n".to_string()), 2);
}

#[test]
fn well_formedness_is_checked_by_inspection() {
    let g = graph(&["a", "b"], &[("a", "b"), ("b", "b")]);
    assert!(g.is_well_formed());
    assert!(CallGraph::new().is_well_formed());
    let dangling = CallGraph { nodes: vec!["a".to_string()], succ: vec![vec![1]] };
    assert!(!dangling.is_well_formed());
    let twice = CallGraph { nodes: vec!["a".to_string(), "a".to_string()], succ: vec![vec![], vec![]] };
    assert!(!twice.is_well_formed());
    let short = CallGraph { nodes: vec!["a".to_string()], succ: vec![] };
    assert!(!short.is_well_formed());
}

#[test]
fn components_are_named_in_order() {
    let g = graph(&["a", "b", "c"], &[("c", "a")]);
    let comps = g.graph_components();
    assert_eq!(
        g.component_names(&comps),
        vec![vec!["a".to_string(), "c".to_string()], vec!["b".to_string()]]
    );
}
