use fractal_render::sort::{merge_inner, merge_sort};

#[test]
fn test_sort_sorted() {
    let mut arr: [u8; 0] = [];
    let mut arr_1 = [1];
    let mut arr_2 = [1,2];
    let mut arr_3 = [1,2,3];
    let mut arr_5 = [1,2,3,4,5];

    merge_sort(&mut arr[0..0]);

    merge_sort(&mut arr_1[0..1]);
    assert_eq!(arr_1, [1]);

    merge_sort(&mut arr_2[0..2]);
    assert_eq!(arr_2, [1,2]);

    merge_sort(&mut arr_3[0..3]);
    assert_eq!(arr_3, [1,2,3]);

    merge_sort(&mut arr_5[0..5]);
    assert_eq!(arr_5, [1,2,3,4,5]);
}

#[test]
fn test_sort_unsorted() {
    for x in 2..10i64 {
        let mut arr: Vec<i64> = (0..x).rev().collect();
        let corr: Vec<i64> = (0..x).collect();

        merge_sort(&mut arr[0..(x as usize)]);
        assert_eq!(arr, corr);
    }

    let mut arr = vec!(92,1,20,91,200,100,200,109,19,0);
    merge_sort(&mut arr[0..10]);

    assert_eq!(arr, vec!(0,1,19,20,91,92,100,109,200,200));
}

fn sorts_as_std_does(xs: Vec<isize>) -> bool {
    let mut sorted = xs.clone();
    let mut ours = xs.clone();
    let size = xs.len();
    sorted.sort_by(|a, b| a.partial_cmp(b).unwrap());

    merge_sort(&mut ours[0..size]);

    for x in 0..size {
        if ours[x] != sorted[x] {
            return false
        }
    }

    true
}

#[test]
fn merge_sort_is_rust_sort() {
    quickcheck::quickcheck(sorts_as_std_does as fn(Vec<isize>) -> bool);
}

#[test]
fn merge_sort_is_rust_sort_on_chosen_inputs() {
    assert!(sorts_as_std_does(vec![]));
    assert!(sorts_as_std_does(vec![7]));
    assert!(sorts_as_std_does(vec![2, 1]));
    assert!(sorts_as_std_does(vec![3, 3, 3]));
    assert!(sorts_as_std_does(vec![5, -1, 4, -1, 0, 9, isize::MIN, isize::MAX, 2]));
    assert!(sorts_as_std_does((0..200).map(|x| (x * 7919) % 101 - 50).collect()));
}

#[test]
fn merge_sort_keeps_every_element() {
    let mut arr = vec![4, 1, 4, 1, 4, 0];
    merge_sort(&mut arr);
    assert_eq!(arr, vec![0, 1, 1, 4, 4, 4]);
}

#[test]
fn merge_sort_sorts_what_is_not_copied() {
    let mut words = vec!["pear".to_string(), "apple".to_string(), "fig".to_string()];
    merge_sort(&mut words);
    assert_eq!(words, vec!["apple".to_string(), "fig".to_string(), "pear".to_string()]);
}

#[test]
fn merge_inner_sorts_its_range_only() {
    let mut arr = [9, 8, 7, 6, 5, 4, 3, 2, 1];
    merge_inner(&mut arr, 2, 6);
    assert_eq!(arr, [9, 8, 3, 4, 5, 6, 7, 2, 1]);
}

#[test]
fn merge_inner_on_one_and_two_elements() {
    let mut arr = [3, 2, 1];
    merge_inner(&mut arr, 1, 1);
    assert_eq!(arr, [3, 2, 1]);
    merge_inner(&mut arr, 0, 1);
    assert_eq!(arr, [2, 3, 1]);
    merge_inner(&mut arr, 1, 2);
    assert_eq!(arr, [2, 1, 3]);
}

#[test]
fn merge_inner_moves_one_element_down_a_run() {
    let mut arr = [2, 3, 5, 1, 2];
    merge_inner(&mut arr, 0, 4);
    assert_eq!(arr, [1, 2, 2, 3, 5]);
}
