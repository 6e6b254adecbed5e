use shortlist::Shortlist;

fn sorted_top(capacity: usize, input: &[u64]) -> Vec<u64> {
    Shortlist::from_slice(capacity, input).into_sorted_vec()
}

#[test]
fn capacity_three_keeps_both_eights() {
    let input = [4, 8, 2, 7, 5, 5, 1, 2, 9, 8];
    assert_eq!(sorted_top(3, &input), vec![8, 8, 9]);
    let s = Shortlist::from_iter(3, input.iter().copied());
    assert_eq!(s.into_sorted_vec_safe(), vec![8, 8, 9]);
}

#[test]
fn capacity_four_example() {
    let input = [0, 3, 6, 5, 2, 1, 4, 6, 7];
    assert_eq!(sorted_top(4, &input), vec![5, 6, 6, 7]);
}

#[test]
fn fewer_items_than_capacity_keeps_all() {
    let input = [9, 1, 8, 2, 7, 3, 6, 4, 5, 0];
    let s = Shortlist::from_slice(100, &input);
    assert_eq!(s.len(), 10);
    assert_eq!(s.capacity(), 100);
    assert_eq!(s.into_sorted_vec(), vec![0, 1, 2, 3, 4, 5, 6, 7, 8, 9]);
}

#[test]
fn capacity_one_keeps_the_maximum() {
    assert_eq!(sorted_top(1, &[5, 3, 9, 1]), vec![9]);
}

#[test]
fn zero_capacity_is_refused() {
    assert!(Shortlist::<u64>::try_new(0).is_none());
    let s = Shortlist::<u64>::try_new(2).unwrap();
    assert_eq!(s.capacity(), 2);
    assert!(s.is_empty());
}

#[test]
fn clear_keeps_capacity_for_reuse() {
    let mut s = Shortlist::new(3);
    for x in [10u64, 20, 30, 40, 50] {
        s.push(x);
    }
    assert_eq!(s.len(), 3);
    s.clear();
    assert!(s.is_empty());
    s.push(7);
    s.push(2);
    assert_eq!(s.len(), 2);
    assert_eq!(s.capacity(), 3);
    assert_eq!(s.into_sorted_vec(), vec![2, 7]);
}

#[test]
fn length_is_min_of_capacity_and_pushes() {
    let mut s = Shortlist::new(4);
    for (i, x) in [3u64, 1, 4, 1, 5, 9, 2, 6].iter().enumerate() {
        assert_eq!(s.len(), i.min(4));
        s.push(*x);
        assert_eq!(s.len(), (i + 1).min(4));
        assert_eq!(s.capacity(), 4);
    }
}

#[test]
fn at_capacity_an_item_equal_to_the_minimum_is_dropped() {
    let mut s = Shortlist::new(2);
    s.push(5u64);
    s.push(5);
    s.push(5);
    s.push(4);
    assert_eq!(s.sorted_cloned_vec(), vec![5, 5]);
    s.push(6);
    assert_eq!(s.into_sorted_vec(), vec![5, 6]);
}

#[test]
fn reordered_input_retains_the_same_items() {
    let a = [7u64, 3, 3, 9, 1, 9, 4, 3];
    let b = [3u64, 9, 1, 3, 7, 4, 9, 3];
    let c = [9u64, 9, 7, 4, 3, 3, 3, 1];
    for k in 1..10 {
        let expected = sorted_top(k, &a);
        assert_eq!(sorted_top(k, &b), expected);
        assert_eq!(sorted_top(k, &c), expected);
    }
}

#[test]
fn queries_repeat_without_change() {
    let s = Shortlist::from_slice(3, &[4u64, 1, 8, 6, 2]);
    let first: Vec<u64> = s.iter().copied().collect();
    let second: Vec<u64> = s.iter().copied().collect();
    assert_eq!(first, second);
    assert_eq!(s.len(), s.len());
    assert_eq!(s.capacity(), s.capacity());
    assert_eq!(s.len(), 3);
    assert_eq!(s.into_vec(), first);
}

#[test]
fn drain_empties_and_keeps_capacity() {
    let mut s = Shortlist::from_slice(3, &[4u64, 1, 8, 6, 2]);
    let mut drained: Vec<u64> = s.drain().collect();
    drained.sort();
    assert_eq!(drained, vec![4, 6, 8]);
    assert!(s.is_empty());
    assert_eq!(s.len(), 0);
    assert_eq!(s.capacity(), 3);
    s.append(vec![1, 2, 3, 4].into_iter());
    assert_eq!(s.into_sorted_vec(), vec![2, 3, 4]);
}

#[test]
fn merge_keeps_the_largest_of_both() {
    let mut a = Shortlist::from_slice(3, &[1u64, 5, 9, 2]);
    let mut b = Shortlist::from_slice(2, &[7u64, 3, 8]);
    a.merge(&mut b);
    assert!(b.is_empty());
    assert_eq!(b.capacity(), 2);
    assert_eq!(a.capacity(), 3);
    assert_eq!(a.into_sorted_vec(), vec![7, 8, 9]);
}

#[test]
fn merge_into_larger_capacity_keeps_everything() {
    let mut a = Shortlist::from_slice(10, &[1u64, 5]);
    let mut b = Shortlist::from_slice(2, &[7u64, 3, 8]);
    a.merge(&mut b);
    assert_eq!(a.into_sorted_vec(), vec![1, 5, 7, 8]);
}

#[test]
fn clone_push_only_keeps_clones_that_make_the_list() {
    let words = ["pear", "apple", "fig", "kiwi"];
    let owned: Vec<String> = words.iter().map(|w| w.to_string()).collect();
    let mut s: Shortlist<String> = Shortlist::new(2);
    for w in &owned {
        s.clone_push(w);
    }
    assert_eq!(s.sorted_cloned_vec(), vec!["kiwi".to_string(), "pear".to_string()]);
    s.append_slice(&["zebra".to_string(), "ant".to_string()]);
    assert_eq!(s.into_sorted_vec(), vec!["pear".to_string(), "zebra".to_string()]);
    let t = Shortlist::from_slice(3, &owned);
    assert_eq!(
        t.into_sorted_vec_safe(),
        vec!["fig".to_string(), "kiwi".to_string(), "pear".to_string()]
    );
}

#[test]
fn storage_order_views_agree() {
    let s = Shortlist::from_slice(4, &[5u64, 2, 8, 1, 9, 3]);
    let seen: Vec<u64> = s.iter().copied().collect();
    let cloned = s.sorted_cloned_vec();
    assert_eq!(cloned, vec![3, 5, 8, 9]);
    assert_eq!(s.len(), 4);
    let moved = Shortlist::from_slice(4, &[5u64, 2, 8, 1, 9, 3]).into_vec_safe();
    assert_eq!(moved, seen);
    assert_eq!(s.into_vec(), seen);
}

#[test]
fn smallest_retained_item_is_evicted_first() {
    let mut s = Shortlist::new(3);
    s.append([10u64, 20, 30].into_iter());
    s.push(25);
    assert_eq!(s.sorted_cloned_vec(), vec![20, 25, 30]);
    s.push(15);
    assert_eq!(s.sorted_cloned_vec(), vec![20, 25, 30]);
    s.push(100);
    assert_eq!(s.into_sorted_vec(), vec![25, 30, 100]);
}

#[test]
fn empty_shortlist_gives_empty_results() {
    let s: Shortlist<u64> = Shortlist::new(5);
    assert!(s.is_empty());
    assert_eq!(s.iter().count(), 0);
    assert_eq!(s.sorted_cloned_vec(), Vec::<u64>::new());
    assert_eq!(s.into_sorted_vec(), Vec::<u64>::new());
}
