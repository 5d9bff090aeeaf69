use classic_algorithms::depth_first_search;
use classic_algorithms::tree::{BasicTree, Tree, TreeNode};

#[test]
fn depth_first_search_should_find_shortest() {
    let mut tree = BasicTree::from_head(1, false);

    tree.insert(2, 1, false);
    tree.insert(3, 1, false);
    tree.insert(4, 2, false);
    tree.insert(5, 2, false);
    tree.insert(6, 3, false);
    tree.insert(7, 3, true);
    tree.insert(8, 6, false);

    assert_eq!(&7, depth_first_search(&tree, |x| *x.value()).unwrap().id())
}

#[test]
fn depth_first_search_should_not_find_anything() {
    let mut tree = BasicTree::from_head(1, false);

    tree.insert(2, 1, false);
    tree.insert(3, 1, false);

    assert!(depth_first_search(&tree, |x| *x.value()).is_none());
}

#[test]
fn depth_first_search_goes_branch_by_branch() {
    let mut tree = BasicTree::from_head(1, 0);
    tree.insert(2, 1, 0);
    tree.insert(3, 1, 9);
    tree.insert(4, 2, 0);
    tree.insert(5, 4, 9);
    // 5 is deeper than 3, but its branch comes first.
    let found = depth_first_search(&tree, |node| *node.value() == 9).unwrap();
    assert_eq!(found.id(), &5);
    let mut visited = Vec::new();
    let none = depth_first_search(&tree, |node| {
        let _ = node;
        false
    });
    assert!(none.is_none());
    let mut stack = vec![0usize];
    while let Some(slot) = stack.pop() {
        let node = tree.node(slot).unwrap();
        visited.push(*node.id());
        for child in node.nodes().iter().rev() {
            stack.push(*child);
        }
    }
    assert_eq!(visited, vec![1, 2, 4, 5, 3]);
}

#[test]
fn depth_first_search_checks_the_head_first() {
    let mut tree = BasicTree::from_head("head", true);
    tree.insert("leaf", "head", true);
    assert_eq!(depth_first_search(&tree, |x| *x.value()).unwrap().id(), &"head");
}

#[test]
fn basic_tree_links_parents_and_children() {
    let mut tree = BasicTree::from_head(1, 'a');
    tree.insert(2, 1, 'b');
    tree.insert(3, 2, 'c');
    assert_eq!(tree.len(), 3);
    assert!(!tree.is_empty());
    let head = tree.head();
    assert_eq!(head.id(), &1);
    assert_eq!(head.parent(), None);
    assert_eq!(head.nodes(), vec![1]);
    let leaf = tree.get(&3).unwrap();
    assert_eq!(leaf.value(), &'c');
    assert_eq!(leaf.parent(), Some(1));
    assert_eq!(tree.node(leaf.parent().unwrap()).unwrap().id(), &2);
    assert!(leaf.nodes().is_empty());
    assert!(tree.get(&4).is_none());
    assert!(tree.node(3).is_none());
}
