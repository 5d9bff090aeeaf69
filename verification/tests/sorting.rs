use classic_algorithms::algorithms::{insertion_sort, merge_sort};
use classic_algorithms::quick_sort;

#[test]
fn insertion_sort_should_sort_array() {
    let mut array: [i32; 8] = [3, 41, 52, 26, 38, 57, 9, 49];

    insertion_sort(&mut array);

    assert_eq!(array, [3, 9, 26, 38, 41, 49, 52, 57]);
}

#[test]
fn merge_sort_should_sort_array() {
    let mut array: [i32; 8] = [3, 41, 52, 26, 38, 57, 9, 49];

    merge_sort(&mut array);

    assert_eq!(array, [3, 9, 26, 38, 41, 49, 52, 57]);
}

#[test]
fn should_sort_list() {
    let mut arr = vec![1, 7, 2, 0, 8, 5];

    quick_sort(&mut arr);

    assert_eq!(arr, vec![0, 1, 2, 5, 7, 8]);
}
#[test]
fn should_sort_list2() {
    let mut arr = vec![1, 7677, 6, 2, 5, 0, 12, 51, 2, 88, 124, 0, 2, 88, 124, 0];

    quick_sort(&mut arr);

    assert_eq!(
        arr,
        vec![0, 0, 0, 1, 2, 2, 2, 5, 6, 12, 51, 88, 88, 124, 124, 7677]
    );
}

fn scrambled(len: usize) -> Vec<i32> {
    let mut state: u64 = 0x2545_f491_4f6c_dd1d;
    (0..len)
        .map(|_| {
            state ^= state << 13;
            state ^= state >> 7;
            state ^= state << 17;
            (state % 1000) as i32 - 500
        })
        .collect()
}

#[test]
fn all_sorts_agree_with_the_standard_sort() {
    for len in [0, 1, 2, 3, 10, 97, 256] {
        let input = scrambled(len);
        let mut expected = input.clone();
        expected.sort();

        let mut by_insertion = input.clone();
        insertion_sort(&mut by_insertion);
        assert_eq!(by_insertion, expected);

        let mut by_merge = input.clone();
        merge_sort(&mut by_merge);
        assert_eq!(by_merge, expected);

        let mut by_quick = input.clone();
        quick_sort(&mut by_quick);
        assert_eq!(by_quick, expected);
    }
}

#[test]
fn sorts_leave_sorted_and_reversed_input_sorted() {
    let sorted: Vec<i32> = (0..50).collect();
    let reversed: Vec<i32> = (0..50).rev().collect();
    for input in [sorted.clone(), reversed] {
        let mut a = input.clone();
        insertion_sort(&mut a);
        assert_eq!(a, sorted);
        let mut b = input.clone();
        merge_sort(&mut b);
        assert_eq!(b, sorted);
        let mut c = input.clone();
        quick_sort(&mut c);
        assert_eq!(c, sorted);
    }
}

#[test]
fn sorts_handle_extreme_integers() {
    let input = vec![i32::MAX, 0, i32::MIN, -1, 1, i32::MAX, i32::MIN];
    let expected = vec![i32::MIN, i32::MIN, -1, 0, 1, i32::MAX, i32::MAX];
    let mut a = input.clone();
    quick_sort(&mut a);
    assert_eq!(a, expected);
    let mut b = input.clone();
    insertion_sort(&mut b);
    assert_eq!(b, expected);
    let mut c = input;
    merge_sort(&mut c);
    assert_eq!(c, expected);
}
