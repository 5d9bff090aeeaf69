use classic_algorithms::binary_search_tree::{
    BinarySearchTree, BinarySearchTreeNode, InsertError,
};

type Tree = BinarySearchTree<i32, &'static str>;
type Node = BinarySearchTreeNode<i32, &'static str>;

fn child<'a>(tree: &'a Tree, node: &Node, side: usize) -> &'a Node {
    tree.node(node.nodes()[side].unwrap()).unwrap()
}

fn is_leaf(node: &Node) -> bool {
    node.nodes().iter().all(Option::is_none)
}

fn in_order(tree: &Tree, slot: Option<usize>, out: &mut Vec<i32>) {
    if let Some(slot) = slot {
        let node = tree.node(slot).unwrap();
        in_order(tree, node.nodes()[0], out);
        out.push(*node.value());
        in_order(tree, node.nodes()[1], out);
    }
}

fn check_links(tree: &Tree, slot: usize, parent: Option<usize>, count: &mut usize) {
    let node = tree.node(slot).unwrap();
    assert_eq!(node.parent(), parent);
    assert!((-1..=1).contains(&node.balance()));
    *count += 1;
    for side in 0..2 {
        if let Some(next) = node.nodes()[side] {
            check_links(tree, next, Some(slot), count);
        }
    }
}

fn check_invariants(tree: &Tree) {
    let mut values = Vec::new();
    in_order(tree, Some(tree.head_slot()), &mut values);
    assert!(values.windows(2).all(|w| w[0] <= w[1]));
    assert_eq!(values.len(), tree.len());
    let mut count = 0;
    check_links(tree, tree.head_slot(), None, &mut count);
    assert_eq!(count, tree.len());
}

fn first_seven() -> Tree {
    let mut tree = BinarySearchTree::from_head("sixty", 60);
    tree.insert("fifty", 50).unwrap();
    tree.insert("forty", 40).unwrap();
    tree.insert("thirty", 30).unwrap();
    tree.insert("twenty", 20).unwrap();
    tree.insert("ten", 10).unwrap();
    tree.insert("nine", 9).unwrap();
    tree
}

fn first_eleven() -> Tree {
    let mut tree = first_seven();
    tree.insert("seventy", 70).unwrap();
    tree.insert("eighty", 80).unwrap();
    tree.insert("ninety", 90).unwrap();
    tree.insert("hundred", 100).unwrap();
    tree
}

#[test]
fn should_assign_nodes_properly() {
    let mut tree = BinarySearchTree::from_head("head_id", 4);

    tree.insert("third", 3).unwrap();
    tree.insert("eighth", 8).unwrap();
    tree.insert("sixth", 6).unwrap();
    tree.insert("eleventh", 11).unwrap();
    tree.insert("twenty", 20).unwrap();

    let head = tree.head();
    assert_eq!(8, *head.value());

    let four_node = child(&tree, head, 0);
    let eleven_node = child(&tree, head, 1);
    assert_eq!(4, *four_node.value());
    assert_eq!(11, *eleven_node.value());

    let three_node = child(&tree, four_node, 0);
    let six_node = child(&tree, four_node, 1);
    assert_eq!(3, *three_node.value());
    assert_eq!(6, *six_node.value());

    assert!(three_node.nodes().iter().all(Option::is_none));
    assert!(six_node.nodes().iter().all(Option::is_none));

    let twenty_node = child(&tree, eleven_node, 1);
    assert!(eleven_node.nodes()[0].is_none());
    assert_eq!(20, *twenty_node.value());

    assert!(twenty_node.nodes().iter().all(Option::is_none));
}

#[test]
fn should_balance_tree() {
    let tree = first_eleven();

    let head = tree.head();
    assert_eq!(30, *head.value());

    let twenty = child(&tree, head, 0);
    let seventy = child(&tree, head, 1);
    assert_eq!(&10, twenty.value());
    assert_eq!(&70, seventy.value());

    let ten = child(&tree, twenty, 0);
    let twenty = child(&tree, twenty, 1);
    assert_eq!(&9, ten.value());
    assert_eq!(&20, twenty.value());

    let fifty = child(&tree, seventy, 0);
    let ninety = child(&tree, seventy, 1);
    assert_eq!(&50, fifty.value());
    assert_eq!(&90, ninety.value());

    let forty = child(&tree, fifty, 0);
    let sixty = child(&tree, fifty, 1);
    assert_eq!(&40, forty.value());
    assert_eq!(&60, sixty.value());

    let eighty = child(&tree, ninety, 0);
    let hundred = child(&tree, ninety, 1);
    assert_eq!(&80, eighty.value());
    assert_eq!(&100, hundred.value());
}

#[test]
fn should_balance_tree_2() {
    let mut tree = first_eleven();

    tree.insert("sixty_five", 65).unwrap();
    tree.insert("sixty_six", 66).unwrap();
    tree.insert("sixty_seven", 66).unwrap();

    let head = tree.head();
    assert_eq!(50, *head.value());

    let _30 = child(&tree, head, 0);
    let _70 = child(&tree, head, 1);
    assert_eq!(&30, _30.value());
    assert_eq!(&70, _70.value());

    let _10 = child(&tree, _30, 0);
    let _40 = child(&tree, _30, 1);
    assert_eq!(&10, _10.value());
    assert_eq!(&40, _40.value());

    let _9 = child(&tree, _10, 0);
    let _20 = child(&tree, _10, 1);
    assert_eq!(&9, _9.value());
    assert_eq!(&20, _20.value());

    let _65 = child(&tree, _70, 0);
    let _90 = child(&tree, _70, 1);
    assert_eq!(&65, _65.value());
    assert_eq!(&90, _90.value());

    let _60 = child(&tree, _65, 0);
    let _66 = child(&tree, _65, 1);
    assert_eq!(&60, _60.value());
    assert_eq!(&66, _66.value());

    let _80 = child(&tree, _90, 0);
    let _100 = child(&tree, _90, 1);
    assert_eq!(&80, _80.value());
    assert_eq!(&100, _100.value());
}

#[test]
fn should_balance_tree_3() {
    let mut tree = first_eleven();

    tree.insert("sixty_five", 65).unwrap();
    tree.insert("sixty_six", 66).unwrap();
    tree.insert("sixty_seven", 67).unwrap();

    let head = tree.head();
    assert_eq!(&50, head.value());

    let thirty_node = child(&tree, head, 0);
    let seventy_node = child(&tree, head, 1);
    assert_eq!(&30, thirty_node.value());
    assert_eq!(&70, seventy_node.value());

    let ten_node = child(&tree, thirty_node, 0);
    let forty_node = child(&tree, thirty_node, 1);
    assert_eq!(&10, ten_node.value());
    assert_eq!(&40, forty_node.value());

    assert!(forty_node.nodes().iter().all(Option::is_none));

    let nine_node = child(&tree, ten_node, 0);
    let twenty_node = child(&tree, ten_node, 1);
    assert_eq!(&9, nine_node.value());
    assert_eq!(&20, twenty_node.value());

    assert!(nine_node.nodes().iter().all(Option::is_none));
    assert!(twenty_node.nodes().iter().all(Option::is_none));

    let sixty_five_node = child(&tree, seventy_node, 0);
    let ninety_node = child(&tree, seventy_node, 1);
    assert_eq!(&65, sixty_five_node.value());
    assert_eq!(&90, ninety_node.value());

    let sixty_node = child(&tree, sixty_five_node, 0);
    let sixty_six_node = child(&tree, sixty_five_node, 1);
    assert_eq!(&60, sixty_node.value());
    assert_eq!(&66, sixty_six_node.value());

    assert!(sixty_node.nodes().iter().all(Option::is_none));

    let sixty_seven_node = child(&tree, sixty_six_node, 1);
    assert!(sixty_six_node.nodes()[0].is_none());
    assert_eq!(&67, sixty_seven_node.value());

    let eighty_node = child(&tree, ninety_node, 0);
    let hundred_node = child(&tree, ninety_node, 1);

    assert_eq!(&80, eighty_node.value());
    assert_eq!(&100, hundred_node.value());

    assert!(eighty_node.nodes().iter().all(Option::is_none));
    assert!(hundred_node.nodes().iter().all(Option::is_none));
}

#[test]
fn single_tree_has_only_its_head() {
    let tree: Tree = BinarySearchTree::from_head("only", 7);
    assert_eq!(tree.len(), 1);
    assert!(!tree.is_empty());
    let head = tree.head();
    assert_eq!(head.id(), &"only");
    assert_eq!(head.value(), &7);
    assert_eq!(head.balance(), 0);
    assert_eq!(head.parent(), None);
    assert!(is_leaf(head));
    assert_eq!(tree.head_slot(), 0);
    assert!(tree.node(1).is_none());
}

#[test]
fn new_node_is_a_leaf_with_balance_zero() {
    let node: Node = BinarySearchTreeNode::new("n", Some(3), 12);
    assert_eq!(node.id(), &"n");
    assert_eq!(node.value(), &12);
    assert_eq!(node.parent(), Some(3));
    assert_eq!(node.balance(), 0);
    assert_eq!(node.nodes(), &[None, None]);
}

#[test]
fn left_left_cascade_promotes_thirty() {
    let tree = first_seven();
    let head = tree.head();
    assert_eq!(head.id(), &"thirty");
    assert_eq!(head.value(), &30);
    let ten = child(&tree, head, 0);
    let fifty = child(&tree, head, 1);
    assert_eq!(ten.value(), &10);
    assert_eq!(fifty.value(), &50);
    assert_eq!(child(&tree, ten, 0).value(), &9);
    assert_eq!(child(&tree, ten, 1).value(), &20);
    assert_eq!(child(&tree, fifty, 0).value(), &40);
    assert_eq!(child(&tree, fifty, 1).value(), &60);
    check_invariants(&tree);
}

#[test]
fn double_rotation_promotes_the_inner_grandchild() {
    // 10, then 30, then 20: the heavy side of 10 bends at 30.
    let mut tree = BinarySearchTree::from_head("ten", 10);
    tree.insert("thirty", 30).unwrap();
    tree.insert("twenty", 20).unwrap();
    let head = tree.head();
    assert_eq!(head.id(), &"twenty");
    assert_eq!(head.balance(), 0);
    assert_eq!(head.parent(), None);
    let ten = child(&tree, head, 0);
    let thirty = child(&tree, head, 1);
    assert_eq!(ten.value(), &10);
    assert_eq!(ten.balance(), 0);
    assert_eq!(thirty.value(), &30);
    // After a double rotation the node between pivot and promoted node
    // leans to the heavy side.
    assert_eq!(thirty.balance(), 1);
    assert_eq!(ten.parent(), Some(tree.head_slot()));
    assert_eq!(thirty.parent(), Some(tree.head_slot()));
    assert!(is_leaf(ten));
    assert!(is_leaf(thirty));
}

#[test]
fn mirrored_double_rotation() {
    let mut tree = BinarySearchTree::from_head("thirty", 30);
    tree.insert("ten", 10).unwrap();
    tree.insert("twenty", 20).unwrap();
    let head = tree.head();
    assert_eq!(head.value(), &20);
    assert_eq!(child(&tree, head, 0).value(), &10);
    assert_eq!(child(&tree, head, 1).value(), &30);
    assert_eq!(child(&tree, head, 0).balance(), -1);
    assert_eq!(child(&tree, head, 1).balance(), 0);
}

#[test]
fn balanced_insert_keeps_the_head() {
    let mut tree = BinarySearchTree::from_head("five", 5);
    tree.insert("three", 3).unwrap();
    assert_eq!(tree.head().id(), &"five");
    assert_eq!(tree.head().balance(), -1);
    tree.insert("eight", 8).unwrap();
    assert_eq!(tree.head().id(), &"five");
    assert_eq!(tree.head_slot(), 0);
    assert_eq!(tree.head().balance(), 0);
    assert_eq!(child(&tree, tree.head(), 0).value(), &3);
    assert_eq!(child(&tree, tree.head(), 1).value(), &8);
}

#[test]
fn rotation_under_a_parent_relinks_the_parent() {
    let tree = first_eleven();
    // 70 was rotated into the place of 50 under the head.
    let head = tree.head();
    let seventy = child(&tree, head, 1);
    assert_eq!(seventy.parent(), Some(tree.head_slot()));
    assert_eq!(tree.node(seventy.parent().unwrap()).unwrap().value(), &30);
    check_invariants(&tree);
}

#[test]
fn equal_values_go_left() {
    let mut tree = BinarySearchTree::from_head("a", 5);
    tree.insert("b", 5).unwrap();
    let head = tree.head();
    assert_eq!(head.id(), &"a");
    assert_eq!(child(&tree, head, 0).id(), &"b");
    assert!(head.nodes()[1].is_none());
    tree.insert("c", 5).unwrap();
    // The rotation puts the middle node on top; the listing stays sorted.
    assert_eq!(tree.head().id(), &"b");
    let mut values = Vec::new();
    in_order(&tree, Some(tree.head_slot()), &mut values);
    assert_eq!(values, vec![5, 5, 5]);
    check_invariants(&tree);
}

#[test]
fn get_finds_inserted_nodes() {
    let mut tree = first_seven();
    assert_eq!(tree.get(&"forty").unwrap().value(), &40);
    assert_eq!(tree.get(&"forty").unwrap().value(), tree.get(&"forty").unwrap().value());
    assert!(tree.get(&"missing").is_none());
    tree.insert("missing", 45).unwrap();
    let found = tree.get(&"missing").unwrap();
    assert_eq!(found.id(), &"missing");
    assert_eq!(found.value(), &45);
    assert_eq!(tree.len(), 8);
}

#[test]
fn duplicate_id_is_refused() {
    let mut tree = first_seven();
    let before = tree.len();
    assert_eq!(tree.insert("forty", 41), Err(InsertError::DuplicateId));
    assert_eq!(tree.len(), before);
    assert_eq!(tree.get(&"forty").unwrap().value(), &40);
    assert_eq!(tree.head().value(), &30);
    check_invariants(&tree);
}

#[test]
fn invariants_hold_after_every_insert() {
    let values = [
        41, 7, 93, 12, 58, 3, 77, 25, 66, 1, 88, 34, 50, 19, 5, 99, 71, 45, 62, 28, 14, 83, 37, 9,
        54, 12, 41, 7,
    ];
    let ids = [
        "a", "b", "c", "d", "e", "f", "g", "h", "i", "j", "k", "l", "m", "n", "o", "p", "q", "r",
        "s", "t", "u", "v", "w", "x", "y", "z", "aa", "ab",
    ];
    let mut tree = BinarySearchTree::from_head("head", 40);
    check_invariants(&tree);
    for (id, value) in ids.iter().zip(values.iter()) {
        tree.insert(*id, *value).unwrap();
        check_invariants(&tree);
        assert_eq!(tree.get(id).unwrap().value(), value);
    }
    let mut listed = Vec::new();
    in_order(&tree, Some(tree.head_slot()), &mut listed);
    let mut expected = values.to_vec();
    expected.push(40);
    expected.sort();
    assert_eq!(listed, expected);
}

#[test]
fn ascending_inserts_stay_consistent() {
    let mut tree = BinarySearchTree::from_head(0u32, 0u32);
    for i in 1..200u32 {
        tree.insert(i, i).unwrap();
    }
    assert_eq!(tree.len(), 200);
    let mut slot = Some(tree.head_slot());
    let mut smallest = None;
    while let Some(s) = slot {
        let node = tree.node(s).unwrap();
        smallest = Some(*node.value());
        slot = node.nodes()[0];
    }
    assert_eq!(smallest, Some(0));
    for i in 0..200u32 {
        let node = tree.get(&i).unwrap();
        assert_eq!(node.value(), &i);
        assert!((-1..=1).contains(&node.balance()));
    }
}

fn levels(tree: &BinarySearchTree<u32, u32>, slot: Option<usize>) -> usize {
    match slot {
        None => 0,
        Some(slot) => {
            let node = tree.node(slot).unwrap();
            1 + levels(tree, node.nodes()[0]).max(levels(tree, node.nodes()[1]))
        }
    }
}

#[test]
fn balance_counters_do_not_bound_the_height() {
    // The counters count insertions on each side since the last rotation,
    // not heights: nine nodes can stand six levels high.
    let mut tree = BinarySearchTree::from_head(0u32, 0u32);
    for value in [7u32, 1, 2, 6, 8, 4, 5, 3] {
        tree.insert(value, value).unwrap();
    }
    assert_eq!(tree.len(), 9);
    assert_eq!(levels(&tree, Some(tree.head_slot())), 6);
    for id in 0..9u32 {
        assert!((-1..=1).contains(&tree.get(&id).unwrap().balance()));
    }
}
