use graph_iso::dual_iso;
use graph_iso::simple_iso;
use graph_iso::Graph;
use graph_iso::GraphBuilder;

fn paper_graph() -> Graph<&'static str> {
    let mut builder = GraphBuilder::new();
    builder.add_node(0, "b");
    builder.add_node(1, "a");
    builder.add_node(2, "a");
    builder.add_node(3, "c");
    builder.add_node(4, "b");
    builder.add_node(5, "a");
    builder.add_node(6, "b");
    builder.add_node(7, "c");
    builder.add_node(8, "b");
    builder.add_relationship(0, 1);
    builder.add_relationship(0, 3);
    builder.add_relationship(1, 6);
    builder.add_relationship(2, 6);
    builder.add_relationship(4, 1);
    builder.add_relationship(4, 3);
    builder.add_relationship(5, 4);
    builder.add_relationship(6, 2);
    builder.add_relationship(6, 5);
    builder.add_relationship(6, 7);
    builder.add_relationship(8, 5);
    builder.build()
}

fn paper_pattern() -> Graph<&'static str> {
    let mut builder = GraphBuilder::new();
    builder.add_node(0, "a");
    builder.add_node(1, "b");
    builder.add_node(2, "c");
    builder.add_relationship(0, 1);
    builder.add_relationship(1, 0);
    builder.add_relationship(1, 2);
    builder.build()
}

#[test]
fn paper_match() {
    let graph = paper_graph();
    let pattern = paper_pattern();

    let matches = simple_iso(&graph, &pattern);
    assert_eq!(vec![vec![2, 6, 7]], matches);
    let matches = dual_iso(&graph, &pattern);
    assert_eq!(vec![vec![2, 6, 7]], matches)
}

#[test]
fn match1() {
    let graph = paper_graph();
    let pattern = paper_pattern();

    let matches = simple_iso(&graph, &pattern);

    assert_eq!(vec![vec![2, 6, 7]], matches)
}

#[test]
fn found_matches_are_sound() {
    // every reported match maps pattern edges to graph edges, preserves
    // labels, and is injective
    let graph = paper_graph();
    let pattern = paper_pattern();
    let pattern_edges = [(0usize, 1usize), (1, 0), (1, 2)];

    for matches in [simple_iso(&graph, &pattern), dual_iso(&graph, &pattern)] {
        for m in &matches {
            assert_eq!(pattern.node_count(), m.len());
            for u in 0..pattern.node_count() {
                assert_eq!(pattern.node_label(u), graph.node_label(m[u]));
                for v in 0..pattern.node_count() {
                    if u != v {
                        assert_ne!(m[u], m[v]);
                    }
                }
            }
            for (u, v) in pattern_edges {
                assert!(graph.neighbors(m[u]).contains(&m[v]));
            }
        }
    }
}

#[test]
fn simple_and_dual_agree() {
    // stronger pruning must not change the answer
    let mut builder = GraphBuilder::new();
    builder.add_node(0, "x");
    builder.add_node(1, "y");
    builder.add_node(2, "x");
    builder.add_node(3, "y");
    builder.add_relationship(0, 1);
    builder.add_relationship(2, 3);
    builder.add_relationship(3, 0);
    let graph = builder.build();

    let mut builder = GraphBuilder::new();
    builder.add_node(0, "x");
    builder.add_node(1, "y");
    builder.add_relationship(0, 1);
    let pattern = builder.build();

    let mut a = simple_iso(&graph, &pattern);
    let mut b = dual_iso(&graph, &pattern);
    a.sort();
    b.sort();
    assert_eq!(a, b);
    assert_eq!(vec![vec![0, 1], vec![2, 3]], a);
}

#[test]
fn empty_pattern_yields_empty_assignment() {
    // a pattern with zero nodes has exactly one match: the empty assignment
    let graph = paper_graph();
    let pattern = GraphBuilder::<&str>::new().build();

    let expected: Vec<Vec<usize>> = vec![vec![]];
    assert_eq!(expected, simple_iso(&graph, &pattern));
    assert_eq!(expected, dual_iso(&graph, &pattern));
}

#[test]
fn infeasible_label_yields_no_match() {
    // a pattern label absent from the graph gives an empty result, no error
    let graph = paper_graph();
    let mut builder = GraphBuilder::new();
    builder.add_node(0, "a");
    builder.add_node(1, "z");
    builder.add_relationship(0, 1);
    let pattern = builder.build();

    let expected: Vec<Vec<usize>> = vec![];
    assert_eq!(expected, simple_iso(&graph, &pattern));
    assert_eq!(expected, dual_iso(&graph, &pattern));
}

#[test]
fn simulation_is_idempotent() {
    // re-running a simulation on its own fixpoint changes nothing
    let graph = paper_graph();
    let pattern = paper_pattern();

    let mut candidates = graph_iso::iso::init_candidates(&graph, &pattern);
    assert!(graph_iso::iso::simple_simulation(&graph, &pattern, &mut candidates));
    let fixed = candidates.clone();
    assert!(graph_iso::iso::simple_simulation(&graph, &pattern, &mut candidates));
    assert_eq!(fixed, candidates);

    let mut candidates = graph_iso::iso::init_candidates(&graph, &pattern);
    assert!(graph_iso::iso::dual_simulation(&graph, &pattern, &mut candidates));
    let fixed = candidates.clone();
    assert!(graph_iso::iso::dual_simulation(&graph, &pattern, &mut candidates));
    assert_eq!(fixed, candidates);
}

#[test]
fn self_loop_pattern() {
    // a pattern self-loop asks for a graph self-loop
    let mut builder = GraphBuilder::new();
    builder.add_node(0, "a");
    builder.add_node(1, "a");
    builder.add_node(2, "a");
    builder.add_relationship(0, 1);
    builder.add_relationship(1, 0);
    builder.add_relationship(2, 2);
    let graph = builder.build();

    let mut builder = GraphBuilder::new();
    builder.add_node(0, "a");
    builder.add_relationship(0, 0);
    let pattern = builder.build();

    assert_eq!(vec![vec![2]], simple_iso(&graph, &pattern));
    assert_eq!(vec![vec![2]], dual_iso(&graph, &pattern));
}
