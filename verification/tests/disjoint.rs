use battlecode::disjoint::Disjoint;

#[test]
fn disjoint_test_basic() {
    let mut set = Disjoint::new(5);
    println!("{:?}", set);
    set.union(0, 4);
    println!("{:?}", set);
    set.union(2, 3);
    println!("{:?}", set);
    set.union(4, 2);
    println!("{:?}", set);
    set.find(3);
    println!("{:?}", set);
}

#[test]
fn fresh_nodes_stand_for_themselves() {
    let mut set = Disjoint::new(4);
    for x in 0..4 {
        assert_eq!(set.find(x), x);
    }
}

#[test]
fn union_joins_two_sets_and_no_more() {
    let mut set = Disjoint::new(5);
    set.union(0, 4);
    set.union(2, 3);
    assert_eq!(set.find(0), set.find(4));
    assert_eq!(set.find(2), set.find(3));
    assert_ne!(set.find(0), set.find(2));
    assert_eq!(set.find(1), 1);
    set.union(4, 2);
    let top = set.find(0);
    assert_eq!(set.find(2), top);
    assert_eq!(set.find(3), top);
    assert_eq!(set.find(4), top);
    assert_eq!(set.find(1), 1);
}

#[test]
fn equal_ranks_keep_the_first_root() {
    let mut set = Disjoint::new(3);
    set.union(1, 2);
    assert_eq!(set.find(2), 1);
    set.union(0, 1);
    assert_eq!(set.find(0), 1);
}

#[test]
fn union_within_one_set_changes_nothing() {
    let mut set = Disjoint::new(3);
    set.union(0, 1);
    let top = set.find(0);
    set.union(1, 0);
    assert_eq!(set.find(0), top);
    assert_eq!(set.find(1), top);
    assert_eq!(set.find(2), 2);
}
