use graph_iso::GraphBuilder;

#[test]
fn test_node_count() {
    let mut builder = GraphBuilder::new();
    builder.add_node(0, "foo");
    builder.add_node(1, "bar");
    let graph = builder.build();
    assert_eq!(2, graph.node_count())
}

#[test]
fn test_relationship_count() {
    let mut builder = GraphBuilder::new();
    builder.add_node(0, "foo");
    builder.add_node(1, "bar");
    builder.add_relationship(0, 1);
    let graph = builder.build();
    assert_eq!(1, graph.relationship_count())
}

#[test]
fn test_node_label() {
    let mut builder = GraphBuilder::new();
    builder.add_node(0, "foo");
    builder.add_node(1, "bar");
    let graph = builder.build();
    assert_eq!("foo", *graph.node_label(0));
    assert_eq!("bar", *graph.node_label(1))
}

#[test]
fn test_degree() {
    let mut builder = GraphBuilder::new();
    builder.add_node(0, "foo");
    builder.add_node(1, "bar");
    builder.add_node(2, "baz");
    builder.add_relationship(0, 1);
    builder.add_relationship(0, 2);
    builder.add_relationship(1, 2);
    let graph = builder.build();

    assert_eq!(2, graph.degree(0));
    assert_eq!(1, graph.degree(1));
    assert_eq!(0, graph.degree(2));
}

#[test]
fn test_neighbors() {
    let mut builder = GraphBuilder::new();
    builder.add_node(0, "foo");
    builder.add_node(1, "bar");
    builder.add_node(2, "baz");
    builder.add_node(3, "boo");
    builder.add_relationship(0, 2);
    builder.add_relationship(0, 1);
    builder.add_relationship(0, 0);
    builder.add_relationship(0, 3);
    builder.add_relationship(1, 2);
    let graph = builder.build();

    let empty: &[usize; 0] = &[];

    assert_eq!(&[0, 1, 2, 3], graph.neighbors(0));
    assert_eq!(&[2], graph.neighbors(1));
    assert_eq!(empty, graph.neighbors(2))
}

#[test]
fn test_readd_node_keeps_label() {
    let mut builder = GraphBuilder::new();
    builder.add_node(0, "foo");
    builder.add_node(0, "bar");
    let graph = builder.build();
    assert_eq!(1, graph.node_count());
    assert_eq!("foo", *graph.node_label(0));
}

#[test]
fn test_neighbors_sorted_with_parallel_edges() {
    // parallel edges are kept, only sorted
    let mut builder = GraphBuilder::new();
    builder.add_node(0, "a");
    builder.add_node(1, "a");
    builder.add_node(2, "a");
    builder.add_relationship(0, 2);
    builder.add_relationship(0, 1);
    builder.add_relationship(0, 2);
    builder.add_relationship(0, 0);
    let graph = builder.build();
    assert_eq!(&[0, 1, 2, 2], graph.neighbors(0));
    assert_eq!(4, graph.relationship_count());
    // degree equals the neighbor list's length, for every node
    for n in 0..graph.node_count() {
        assert_eq!(graph.degree(n), graph.neighbors(n).len());
        let nb = graph.neighbors(n);
        for w in nb.windows(2) {
            assert!(w[0] <= w[1]);
        }
    }
}

#[test]
fn test_nodes_by_label() {
    let mut builder = GraphBuilder::new();
    builder.add_node(0, "a");
    builder.add_node(1, "b");
    builder.add_node(2, "a");
    builder.add_node(3, "a");
    let graph = builder.build();
    assert_eq!(&vec![0, 2, 3], graph.nodes_by_label(&"a"));
    assert_eq!(&vec![1], graph.nodes_by_label(&"b"));
    let none: &Vec<usize> = graph.nodes_by_label(&"c");
    assert!(none.is_empty());
}
