use classic_algorithms::breadth_first_search;
use classic_algorithms::graph::{BasicGraph, BasicGraphNode, Graph, GraphNode};

#[derive(Debug)]
struct Item(bool);

#[test]
fn breadth_first_search_should_find_shortest() {
    let mut graph = BasicGraph::new();

    let eight = BasicGraphNode::new(8, Item(false), None);
    let seven = BasicGraphNode::new(7, Item(true), None);
    let six = BasicGraphNode::new(6, Item(false), Some(vec![8]));
    let five = BasicGraphNode::new(5, Item(false), None);
    let four = BasicGraphNode::new(4, Item(false), None);
    let three = BasicGraphNode::new(3, Item(false), Some(vec![6, 7, 5]));
    let two = BasicGraphNode::new(2, Item(false), Some(vec![4, 5]));
    let one = BasicGraphNode::new(1, Item(false), Some(vec![2, 3]));

    graph.insert(eight);
    graph.insert(seven);
    graph.insert(six);
    graph.insert(five);
    graph.insert(four);
    graph.insert(three);
    graph.insert(two);
    graph.insert(one);

    assert_eq!(&7, breadth_first_search(1, &graph, |x| x.0).unwrap().id())
}

#[test]
fn breadth_first_search_should_not_find_anything() {
    let mut graph = BasicGraph::new();

    let three = BasicGraphNode::new(3, Item(false), None);
    let two = BasicGraphNode::new(2, Item(false), None);
    let one = BasicGraphNode::new(1, Item(false), Some(vec![2, 3]));

    graph.insert(one);
    graph.insert(three);
    graph.insert(two);

    assert!(breadth_first_search(1, &graph, |x| x.0).is_none());
}

#[test]
fn breadth_first_search_prefers_the_nearer_layer() {
    let mut graph = BasicGraph::new();
    graph.insert(BasicGraphNode::new("start", 0, Some(vec!["a", "b"])));
    graph.insert(BasicGraphNode::new("a", 0, Some(vec!["deep"])));
    graph.insert(BasicGraphNode::new("b", 5, None));
    graph.insert(BasicGraphNode::new("deep", 5, None));
    let found = breadth_first_search("start", &graph, |value| *value == 5).unwrap();
    assert_eq!(found.id(), &"b");
}

#[test]
fn breadth_first_search_does_not_check_the_start() {
    let mut graph = BasicGraph::new();
    graph.insert(BasicGraphNode::new(1, true, Some(vec![2])));
    graph.insert(BasicGraphNode::new(2, false, None));
    assert!(breadth_first_search(1, &graph, |value| *value).is_none());
}

#[test]
fn breadth_first_search_ends_on_a_cycle() {
    let mut graph = BasicGraph::new();
    graph.insert(BasicGraphNode::new(1, false, Some(vec![2])));
    graph.insert(BasicGraphNode::new(2, false, Some(vec![3, 1])));
    graph.insert(BasicGraphNode::new(3, false, Some(vec![1, 2, 3])));
    assert!(breadth_first_search(1, &graph, |value| *value).is_none());
    // The start is found when a path leads back to it.
    let mut looped = BasicGraph::new();
    looped.insert(BasicGraphNode::new(1, true, Some(vec![2])));
    looped.insert(BasicGraphNode::new(2, false, Some(vec![1])));
    assert_eq!(breadth_first_search(1, &looped, |value| *value).unwrap().id(), &1);
}

#[test]
fn breadth_first_search_without_a_start() {
    let mut graph = BasicGraph::new();
    graph.insert(BasicGraphNode::new(1, true, None));
    assert!(breadth_first_search(9, &graph, |value| *value).is_none());
    assert!(breadth_first_search(1, &graph, |value| *value).is_none());
    // An id that names no node is passed over.
    graph.insert(BasicGraphNode::new(2, false, Some(vec![7, 1])));
    assert_eq!(breadth_first_search(2, &graph, |value| *value).unwrap().id(), &1);
}

#[test]
fn basic_graph_keeps_the_last_node_under_an_id() {
    let mut graph: BasicGraph<char, u8> = BasicGraph::default();
    assert!(graph.is_empty());
    graph.insert(BasicGraphNode::new(1, 'a', None));
    graph.insert(BasicGraphNode::new(2, 'b', Some(vec![1])));
    graph.insert(BasicGraphNode::new(1, 'c', None));
    assert_eq!(graph.len(), 2);
    assert!(!graph.is_empty());
    assert_eq!(graph.get(&1).unwrap().value(), &'c');
    assert_eq!(graph.get(&2).unwrap().nodes(), &Some(vec![1]));
    assert!(graph.get(&3).is_none());
}
