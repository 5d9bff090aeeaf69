use classic_algorithms::dijkstra_search;
use classic_algorithms::weighted_graph::{WeightedGraph, WeightedGraphNode};

#[test]
fn should_find_shortest_path() {
    // given
    let mut graph = WeightedGraph::new();
    const BOOK: &str = "book";
    const DISK: &str = "disk";
    const POSTER: &str = "poster";
    const DRUMS: &str = "drums";
    const GUITAR: &str = "guitar";
    const PIANO: &str = "piano";

    graph.insert(BOOK);
    graph.insert(DISK);
    graph.insert(POSTER);
    graph.insert(DRUMS);
    graph.insert(GUITAR);
    graph.insert(PIANO);

    graph.connect(BOOK, DISK, 5);
    graph.connect(BOOK, POSTER, 0);
    graph.connect(DISK, GUITAR, 15);
    graph.connect(DISK, DRUMS, 20);
    graph.connect(POSTER, GUITAR, 30);
    graph.connect(POSTER, DRUMS, 35);
    graph.connect(GUITAR, PIANO, 20);
    graph.connect(DRUMS, PIANO, 10);

    // when
    let shortest_path = dijkstra_search(&graph, BOOK, PIANO);

    // then
    assert_eq!(vec![BOOK, DISK, DRUMS, PIANO], shortest_path);
}

fn diamond() -> WeightedGraph<u8> {
    let mut graph = WeightedGraph::new();
    for id in 1..=5 {
        graph.insert(id);
    }
    graph.connect(1, 2, 1);
    graph.connect(1, 3, 4);
    graph.connect(2, 3, 1);
    graph.connect(3, 4, 1);
    graph.connect(2, 4, 5);
    graph
}

#[test]
fn dijkstra_takes_the_cheaper_detour() {
    let graph = diamond();
    assert_eq!(dijkstra_search(&graph, 1, 4), vec![1, 2, 3, 4]);
    assert_eq!(dijkstra_search(&graph, 1, 3), vec![1, 2, 3]);
    assert_eq!(dijkstra_search(&graph, 2, 4), vec![2, 3, 4]);
}

#[test]
fn dijkstra_without_a_route_gives_the_finish_alone() {
    let graph = diamond();
    assert_eq!(dijkstra_search(&graph, 1, 5), vec![5]);
    assert_eq!(dijkstra_search(&graph, 4, 1), vec![1]);
    assert_eq!(dijkstra_search(&graph, 1, 9), vec![9]);
    assert_eq!(dijkstra_search(&graph, 1, 1), vec![1]);
}

#[test]
fn dijkstra_ends_on_a_cycle() {
    let mut graph = WeightedGraph::new();
    graph.insert('a');
    graph.insert('b');
    graph.insert('c');
    graph.connect('a', 'b', 0);
    graph.connect('b', 'a', 0);
    graph.connect('b', 'c', 2);
    graph.connect('c', 'a', 1);
    assert_eq!(dijkstra_search(&graph, 'a', 'c'), vec!['a', 'b', 'c']);
    assert_eq!(dijkstra_search(&graph, 'c', 'b'), vec!['c', 'a', 'b']);
    assert_eq!(dijkstra_search(&graph, 'a', 'a'), vec!['a']);
}

#[test]
fn dijkstra_with_extreme_weights_does_not_overflow() {
    let mut graph = WeightedGraph::new();
    for id in 0..4u32 {
        graph.insert(id);
    }
    graph.connect(0, 1, i32::MAX);
    graph.connect(1, 2, i32::MAX);
    graph.connect(2, 3, i32::MAX);
    graph.connect(0, 3, i32::MIN);
    assert_eq!(dijkstra_search(&graph, 0, 3), vec![0, 3]);
    assert_eq!(dijkstra_search(&graph, 0, 2), vec![0, 1, 2]);
}

#[test]
fn weighted_graph_records_nodes_and_edges() {
    let mut graph: WeightedGraph<&str> = WeightedGraph::default();
    assert!(graph.is_empty());
    assert_eq!(graph.len(), 0);
    graph.insert("a");
    graph.insert("b");
    graph.connect("a", "b", 7);
    graph.connect("a", "a", -2);
    assert_eq!(graph.len(), 2);
    assert!(!graph.is_empty());
    let a = graph.get(&"a").unwrap();
    assert_eq!(a.id(), "a");
    assert_eq!(a.nodes().len(), 2);
    assert_eq!(a.nodes()[0].weight(), 7);
    assert_eq!(a.nodes()[0].id(), &"b");
    assert_eq!(graph.node(a.nodes()[0].node()).unwrap().id(), "b");
    assert_eq!(a.nodes()[1].weight(), -2);
    assert_eq!(a.nodes()[1].node(), graph.slot(&"a").unwrap());
    assert!(graph.get(&"b").unwrap().nodes().is_empty());
    assert!(graph.get(&"c").is_none());
    assert!(graph.slot(&"c").is_none());
    let lone = WeightedGraphNode::new(3u8);
    assert_eq!(lone.id(), 3);
    assert!(lone.nodes().is_empty());
}

#[test]
fn weighted_graph_replaces_a_node_under_its_id() {
    let mut graph = WeightedGraph::new();
    graph.insert(1);
    graph.insert(2);
    graph.connect(1, 2, 3);
    graph.insert(1);
    assert_eq!(graph.len(), 2);
    assert_eq!(graph.slots(), 3);
    assert!(graph.get(&1).unwrap().nodes().is_empty());
    assert_eq!(dijkstra_search(&graph, 1, 2), vec![2]);
}
