use elder_quorum::id_set::IdSet;
use elder_quorum::stable_set::StableSet;

#[test]
fn new_set_is_empty() {
    let s = IdSet::new();
    assert_eq!(s.len(), 0);
    assert!(s.is_empty());
    assert!(!s.contains(0));
    assert_eq!(s.to_vec(), Vec::<u64>::new());
}

#[test]
fn insert_keeps_members_sorted_and_unique() {
    let mut s = IdSet::new();
    assert!(s.insert(5));
    assert!(s.insert(1));
    assert!(s.insert(9));
    assert!(!s.insert(5));
    assert!(s.insert(0));
    assert_eq!(s.to_vec(), vec![0, 1, 5, 9]);
    assert_eq!(s.len(), 4);
    assert_eq!(s.get(2), 5);
    assert!(s.contains(9));
    assert!(!s.contains(2));
}

#[test]
fn from_vec_drops_repetitions() {
    let s = IdSet::from_vec(&vec![3, 1, 3, 2, 1]);
    assert_eq!(s.to_vec(), vec![1, 2, 3]);
}

#[test]
fn equal_sets_have_equal_representations() {
    let a = IdSet::from_vec(&vec![4, 2, 7]);
    let b = IdSet::from_vec(&vec![7, 4, 2, 2]);
    assert!(a.same(&b));
    assert_eq!(a, b);
    let c = IdSet::from_vec(&vec![7, 4]);
    assert!(!a.same(&c));
    assert!(c.is_subset_of(&a));
    assert!(!a.is_subset_of(&c));
}

#[test]
fn first_lists_the_identifiers_below_a_bound() {
    assert_eq!(IdSet::first(0).to_vec(), Vec::<u64>::new());
    assert_eq!(IdSet::first(3).to_vec(), vec![0, 1, 2]);
}

#[test]
fn union_holds_the_members_of_both() {
    let a = IdSet::from_vec(&vec![1, 3]);
    let b = IdSet::from_vec(&vec![2, 3, 4]);
    assert_eq!(a.union(&b).to_vec(), vec![1, 2, 3, 4]);
    assert_eq!(a.union(&IdSet::new()).to_vec(), vec![1, 3]);
}

#[test]
fn clone_of_a_set_is_the_same_set() {
    let a = IdSet::from_vec(&vec![8, 6]);
    let b = a.clone();
    assert_eq!(a, b);
    assert_eq!(b.to_vec(), vec![6, 8]);
}

#[test]
fn stable_set_starts_with_the_founding_members() {
    let s = StableSet::new(&IdSet::first(2));
    assert_eq!(s.ids(), vec![0, 1]);
    assert!(s.contains(1));
    assert!(!s.contains(2));
    assert_eq!(s.len(), 2);
}

#[test]
fn stable_set_lists_each_member_once() {
    let mut s = StableSet::new(&IdSet::first(2));
    assert!(s.add(3));
    assert!(!s.add(3));
    assert!(!s.add(0));
    assert_eq!(s.ids(), vec![0, 1, 3]);
    assert_eq!(s.ids().len(), s.len());
    assert_eq!(s.members().to_vec(), vec![0, 1, 3]);
}

#[test]
fn stable_sets_compare_by_their_members() {
    let mut a = StableSet::new(&IdSet::first(1));
    let mut b = StableSet::new(&IdSet::first(1));
    a.add(4);
    a.add(2);
    b.add(2);
    assert!(!a.same(&b));
    b.add(4);
    assert!(a.same(&b));
    assert!(a.clone().same(&a));
}
