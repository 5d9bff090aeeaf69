use classic_algorithms::binary_search_tree::BinarySearchTree;
use classic_algorithms::{binary_search, binary_search_for_tree};

fn get_list() -> Vec<i32> {
    vec![
        0, 1, 2, 3, 4, 5, 6, 7, 8, 9, 10, 11, 12, 13, 14, 15, 16, 17, 18, 19, 20, 21, 22, 23, 24,
        25, 26, 27, 28, 29, 30, 31, 32,
    ]
}

fn get_binary_tree<'a>() -> BinarySearchTree<i32, &'a str> {
    let mut tree = BinarySearchTree::from_head("head_id", 5);

    tree.insert("fourth", 4).unwrap();
    tree.insert("third", 3).unwrap();
    tree.insert("eighth", 8).unwrap();
    tree.insert("sixth", 6).unwrap();
    tree.insert("eleventh", 11).unwrap();
    tree.insert("twenty", 20).unwrap();

    tree
}

#[test]
fn should_find_item_in_vector() {
    assert_eq!(binary_search::<i32>(&get_list(), &28), Some(28));
}

#[test]
fn should_return_none_if_not_exist_in_vector() {
    assert_eq!(binary_search::<i32>(&get_list(), &45), None);
}

#[test]
fn should_find_item_in_binary_tree() {
    // given
    let tree = get_binary_tree();

    // when
    let found_node = binary_search_for_tree(&tree, &20);

    // then
    assert_eq!(found_node.unwrap().id(), &"twenty");
}

#[test]
fn should_return_none_if_not_exist_in_binary_tree() {
    // given
    let tree = get_binary_tree();

    // when
    let found_node = binary_search_for_tree(&tree, &9999);

    // then
    assert!(found_node.is_none());
}

#[test]
fn binary_search_finds_every_element() {
    let list = get_list();
    for (index, element) in list.iter().enumerate() {
        assert_eq!(binary_search(&list, element), Some(index));
    }
    assert_eq!(binary_search(&list, &-1), None);
    assert_eq!(binary_search(&list, &33), None);
}

#[test]
fn binary_search_on_short_lists() {
    let empty: Vec<i32> = vec![];
    assert_eq!(binary_search(&empty, &1), None);
    assert_eq!(binary_search(&[7], &7), Some(0));
    assert_eq!(binary_search(&[7], &8), None);
    assert_eq!(binary_search(&[1, 3], &2), None);
    let found = binary_search(&[2, 2, 2], &2).unwrap();
    assert!(found < 3);
}

#[test]
fn tree_search_finds_every_value() {
    let tree = get_binary_tree();
    for value in [3, 4, 5, 6, 8, 11, 20] {
        assert_eq!(binary_search_for_tree(&tree, &value).unwrap().value(), &value);
    }
    for value in [0, 7, 9, 10, 12, 21] {
        assert!(binary_search_for_tree(&tree, &value).is_none());
    }
}

#[test]
fn tree_search_returns_the_topmost_of_equal_values() {
    let mut tree = BinarySearchTree::from_head("a", 5);
    tree.insert("b", 5).unwrap();
    tree.insert("c", 5).unwrap();
    let found = binary_search_for_tree(&tree, &5).unwrap();
    assert_eq!(found.id(), tree.head().id());
}
