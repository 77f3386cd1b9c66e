use jcalgs::unionfind::{find, make_set, union, Forest};

/// Sum of the size fields over the nodes that are currently roots.
fn root_size_total<T>(set: &Forest<T>) -> usize {
    let mut total = 0;
    for i in 0..set.len() {
        if set.parent_of(i) == i {
            total += set.size_of(i);
        }
    }
    total
}

#[test]
fn small_i32_set() {
    let mut set = make_set(vec![1, 2, 3, 4]);

    // mark node 1 as being connected to node 0
    union(&mut set, 0, 1);
    let r0 = find(&mut set, 0);
    assert_eq!(1, *set.payload(r0));
    let r1 = find(&mut set, 1);
    assert_eq!(1, *set.payload(r1));

    union(&mut set, 0, 2);
    let r2 = find(&mut set, 2);
    assert_eq!(1, *set.payload(r2));

    // node 3 should still be an outlier here
    let r3 = find(&mut set, 3);
    assert_eq!(4, *set.payload(r3));
}

// Testcases from the book "Algorithm Design and Applications" by Goodrich/Tamassia
#[test]
fn ada_example_r7p1() {
    let mut set = make_set(vec!["A", "B", "C", "D", "E", "F", "G"]);

    // friendship ties
    // [(A,B), (B,C), (C,B), (D,E), (F,G)]
    union(&mut set, 0, 1);
    union(&mut set, 1, 2);
    union(&mut set, 2, 1);
    union(&mut set, 3, 4);
    union(&mut set, 5, 6);

    // group 1
    let r0 = find(&mut set, 0);
    assert_eq!("A", *set.payload(r0));
    let r1 = find(&mut set, 1);
    assert_eq!("A", *set.payload(r1));
    let r2 = find(&mut set, 2);
    assert_eq!("A", *set.payload(r2));

    // group 2
    let r3 = find(&mut set, 3);
    assert_eq!("D", *set.payload(r3));
    let r4 = find(&mut set, 4);
    assert_eq!("D", *set.payload(r4));

    // group 3
    let r5 = find(&mut set, 5);
    assert_eq!("F", *set.payload(r5));
    let r6 = find(&mut set, 6);
    assert_eq!("F", *set.payload(r6));
}

#[test]
fn fresh_nodes_are_their_own_roots() {
    let mut set = make_set(vec![7u8, 7, 7]);
    for i in 0..set.len() {
        assert_eq!(i, find(&mut set, i));
        assert_eq!(i, set.parent_of(i));
        assert_eq!(1, set.size_of(i));
    }
}

#[test]
fn find_is_idempotent() {
    let mut set = make_set(vec![0u32, 1, 2, 3, 4, 5]);
    union(&mut set, 0, 1);
    union(&mut set, 1, 2);
    union(&mut set, 2, 3);

    let first = find(&mut set, 3);
    let parents_after_first: Vec<usize> = (0..set.len()).map(|i| set.parent_of(i)).collect();
    let second = find(&mut set, 3);
    let parents_after_second: Vec<usize> = (0..set.len()).map(|i| set.parent_of(i)).collect();

    // same representative both times, and no further parent reassignment
    assert_eq!(first, second);
    assert_eq!(parents_after_first, parents_after_second);
}

#[test]
fn union_joins_representatives() {
    let mut set = make_set(vec!["p", "q", "r"]);
    union(&mut set, 1, 2);
    assert_eq!(find(&mut set, 1), find(&mut set, 2));
    // ties attach b's root under a's root
    assert_eq!(1, find(&mut set, 2));
}

#[test]
fn union_is_transitive_either_order() {
    // union(a, b) then union(b, c)
    let mut set = make_set(vec![0u8, 1, 2, 3]);
    union(&mut set, 0, 1);
    union(&mut set, 1, 2);
    let root = find(&mut set, 0);
    assert_eq!(root, find(&mut set, 1));
    assert_eq!(root, find(&mut set, 2));

    // union(b, c) then union(a, b)
    let mut other = make_set(vec![0u8, 1, 2, 3]);
    union(&mut other, 1, 2);
    union(&mut other, 0, 1);
    let other_root = find(&mut other, 0);
    assert_eq!(other_root, find(&mut other, 1));
    assert_eq!(other_root, find(&mut other, 2));
}

#[test]
fn union_does_not_disturb_other_sets() {
    let mut set = make_set(vec![10, 20, 30, 40, 50]);
    union(&mut set, 3, 4);
    let bystander_root = find(&mut set, 3);
    union(&mut set, 0, 1);
    union(&mut set, 1, 2);
    assert_eq!(bystander_root, find(&mut set, 3));
    assert_eq!(bystander_root, find(&mut set, 4));
}

#[test]
fn root_sizes_always_sum_to_node_count() {
    let mut set = make_set(vec![0i64, 1, 2, 3, 4, 5, 6]);
    assert_eq!(7, root_size_total(&set));
    union(&mut set, 0, 1);
    assert_eq!(7, root_size_total(&set));
    union(&mut set, 2, 3);
    assert_eq!(7, root_size_total(&set));
    union(&mut set, 0, 2);
    assert_eq!(7, root_size_total(&set));
    find(&mut set, 3);
    assert_eq!(7, root_size_total(&set));
    // a union inside one set must not double-count
    union(&mut set, 1, 3);
    assert_eq!(7, root_size_total(&set));
    let merged = find(&mut set, 3);
    assert_eq!(4, set.size_of(merged));
}

#[test]
fn scenario_four_elements() {
    let mut set = make_set(vec![1, 2, 3, 4]);
    union(&mut set, 0, 1);
    let r1 = find(&mut set, 0);
    assert_eq!(r1, find(&mut set, 1));
    assert_eq!(1, *set.payload(r1));
    union(&mut set, 0, 2);
    let r2 = find(&mut set, 2);
    assert_eq!(1, *set.payload(r2));
    let r3 = find(&mut set, 3);
    assert_eq!(4, *set.payload(r3));
}

#[test]
fn larger_set_absorbs_smaller() {
    let mut set = make_set(vec![0u16, 1, 2, 3]);
    union(&mut set, 0, 1);
    // {0, 1} has size 2; node 2 is alone, so its root goes under node 0
    union(&mut set, 2, 0);
    assert_eq!(0, find(&mut set, 2));
    assert_eq!(3, set.size_of(0));
}

#[test]
fn self_union_is_harmless() {
    let mut set = make_set(vec!["only", "other"]);
    union(&mut set, 0, 0);
    assert_eq!(0, find(&mut set, 0));
    assert_eq!(1, find(&mut set, 1));
    assert_eq!(2, root_size_total(&set));
}

#[test]
fn duplicate_payloads_stay_distinct() {
    let mut set = make_set(vec!["same", "same", "same"]);
    union(&mut set, 0, 1);
    // node 2 carries an equal payload but belongs to its own set: root
    // detection is structural, never a payload comparison
    assert_eq!(2, find(&mut set, 2));
    assert_ne!(find(&mut set, 0), find(&mut set, 2));
}

#[test]
fn empty_input_yields_empty_forest() {
    let empty: Vec<u32> = vec![];
    let set = make_set(empty);
    assert_eq!(0, set.len());
}
