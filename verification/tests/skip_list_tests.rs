use skip_list::iterator::SkipListIterator;
use skip_list::structures::{SkipList, SkipNode};

fn collected(list: &SkipList) -> Vec<u64> {
    let mut out: Vec<u64> = Vec::new();
    let mut it = list.iter();
    while let Some(v) = it.next() {
        out.push(v);
    }
    out
}

#[test]
fn insert_many_in_order_stay_in_order_test() {
    let mut skip_list = SkipList::new();

    skip_list
        .insert(1)
        .insert(2)
        .insert(3)
        .insert(4)
        .insert(5)
        .insert(6)
        .insert(7)
        .insert(8)
        .insert(9);
    assert_eq!(skip_list.len(), 9);
    for (a, b) in collected(&skip_list).iter().zip([1, 2, 3, 4, 5, 6, 7, 8, 9].iter()) {
        assert_eq!(a, b)
    }
}

#[test]
fn insert_many_in_reverse_order_should_be_in_order_test() {
    let mut skip_list = SkipList::new();

    skip_list
        .insert(9)
        .insert(8)
        .insert(7)
        .insert(6)
        .insert(5)
        .insert(4)
        .insert(3)
        .insert(2)
        .insert(1);

    assert_eq!(skip_list.len(), 9);
    for (a, b) in collected(&skip_list).iter().zip([1, 2, 3, 4, 5, 6, 7, 8, 9].iter()) {
        assert_eq!(a, b)
    }
}

#[test]
fn insert_many_duplicates_should_be_in_order_test() {
    let mut skip_list = SkipList::new();

    skip_list
        .insert(3)
        .insert(2)
        .insert(1)
        .insert(3)
        .insert(2)
        .insert(1)
        .insert(3)
        .insert(2)
        .insert(1);

    assert_eq!(skip_list.len(), 9);
    for (a, b) in collected(&skip_list).iter().zip([1, 1, 1, 2, 2, 2, 3, 3, 3].iter()) {
        assert_eq!(a, b)
    }
}

#[test]
fn empty_list_has_len_zero_and_yields_nothing() {
    let skip_list = SkipList::new();
    assert_eq!(skip_list.len(), 0);
    let mut it = skip_list.iter();
    assert_eq!(it.next(), None);
    assert_eq!(collected(&skip_list), Vec::<u64>::new());
}

#[test]
fn iteration_is_sorted_for_mixed_inserts() {
    let mut skip_list = SkipList::new();
    let values: [u64; 20] = [
        12, 7, 19, 3, 3, 15, 0, 8, 12, 1, 99, 42, 17, 5, 5, 5, 63, 2, 11, 7,
    ];
    for v in values.iter() {
        skip_list.insert(*v);
    }
    assert_eq!(skip_list.len(), values.len());
    let out = collected(&skip_list);
    assert_eq!(out.len(), values.len());
    for w in out.windows(2) {
        assert!(w[0] <= w[1]);
    }
    let mut expected = values.to_vec();
    expected.sort();
    assert_eq!(out, expected);
}

#[test]
fn two_fresh_iterators_yield_identical_sequences() {
    let mut skip_list = SkipList::new();
    for v in [4u64, 1, 4, 2, 8, 5, 7, 1].iter() {
        skip_list.insert(*v);
    }
    let first = collected(&skip_list);
    let second = collected(&skip_list);
    assert_eq!(first, second);
    assert_eq!(first.len(), 8);
}

#[test]
fn len_counts_every_insert_including_duplicates() {
    let mut skip_list = SkipList::new();
    assert_eq!(skip_list.len(), 0);
    skip_list.insert(5);
    assert_eq!(skip_list.len(), 1);
    skip_list.insert(5);
    assert_eq!(skip_list.len(), 2);
    skip_list.insert(5).insert(5);
    assert_eq!(skip_list.len(), 4);
}

#[test]
fn to_values_matches_iteration() {
    let mut skip_list = SkipList::new();
    skip_list.insert(30).insert(10).insert(20);
    assert_eq!(skip_list.to_values(), vec![10u64, 20, 30]);
    assert_eq!(skip_list.to_values(), collected(&skip_list));
}

#[test]
fn debug_string_renders_lane_zero_in_order() {
    let mut skip_list = SkipList::new();
    skip_list.insert(3).insert(1).insert(2);
    assert_eq!(skip_list.debug_string(), "[1, 2, 3]");
    let empty = SkipList::new();
    assert_eq!(empty.debug_string(), "[]");
}

#[test]
fn extreme_values_are_kept_in_order() {
    let mut skip_list = SkipList::new();
    skip_list.insert(u64::MAX).insert(0).insert(u64::MAX).insert(0).insert(1);
    assert_eq!(skip_list.len(), 5);
    assert_eq!(collected(&skip_list), vec![0, 0, 1, u64::MAX, u64::MAX]);
}

#[test]
fn lane_walker_peeks_and_advances_along_a_lane() {
    let mut first = SkipNode::new(10, 0);
    first.next[0] = Some(1);
    let second = SkipNode::new(20, 0);
    let nodes = vec![first, second];
    let lanes: Vec<usize> = vec![0];

    let mut walker = skip_list::structures::LaneWalker::new(&lanes);
    assert_eq!(walker.peek_next(&nodes, 0), Some(0));
    walker.next(&nodes, 0);
    assert_eq!(walker.peek_next(&nodes, 0), Some(1));
    walker.next(&nodes, 0);
    assert_eq!(walker.peek_next(&nodes, 0), None);
    assert_eq!(walker.peek_next(&nodes, 5), None);
}

#[test]
fn fresh_node_has_one_slot_per_lane() {
    let node = SkipNode::new(7, 3);
    assert_eq!(node.value, 7);
    assert_eq!(node.next.len(), 4);
    for slot in node.next.iter() {
        assert_eq!(*slot, None);
    }
}

#[test]
fn iterator_type_is_single_pass() {
    let mut skip_list = SkipList::new();
    skip_list.insert(2).insert(1);
    let mut it: SkipListIterator = skip_list.iter();
    assert_eq!(it.next(), Some(1));
    assert_eq!(it.next(), Some(2));
    assert_eq!(it.next(), None);
    assert_eq!(it.next(), None);
}
