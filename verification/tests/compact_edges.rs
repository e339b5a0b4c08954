use pycallgraph_rs::compact_edges::CompactEdgeSet;
use std::collections::HashSet;

#[test]
fn compact_set_is_sorted_and_searchable() {
    let set: HashSet<usize> = [42, 7, 19, 3, 100].into_iter().collect();
    let c = CompactEdgeSet::from_set(set);
    assert_eq!(c.len(), 5);
    assert!(!c.is_empty());
    let items: Vec<usize> = c.iter().copied().collect();
    assert_eq!(items, vec![3, 7, 19, 42, 100]);
    for x in [3, 7, 19, 42, 100] {
        assert!(c.contains(&x));
    }
    for x in [0, 4, 20, 101] {
        assert!(!c.contains(&x));
    }
}

#[test]
fn compact_set_empty() {
    let c = CompactEdgeSet::from_set(HashSet::new());
    assert!(c.is_empty());
    assert_eq!(c.len(), 0);
    assert!(!c.contains(&0));
    let d = CompactEdgeSet::default();
    assert!(d.is_empty());
    let e = c.clone();
    assert_eq!(e.len(), 0);
}

#[test]
fn compact_set_borrowed_iteration_is_increasing() {
    let set: HashSet<usize> = [5, 1, 9].into_iter().collect();
    let c = CompactEdgeSet::from_set(set);
    let mut seen = Vec::new();
    for x in &c {
        seen.push(*x);
    }
    assert_eq!(seen, vec![1, 5, 9]);
}

#[test]
fn compact_set_from_hash_set() {
    let set: HashSet<usize> = [8, 2, 5].into_iter().collect();
    let c = CompactEdgeSet::from(set);
    assert_eq!(c.iter().copied().collect::<Vec<usize>>(), vec![2, 5, 8]);
    let d: CompactEdgeSet = HashSet::from([4usize]).into();
    assert!(d.contains(&4));
    assert_eq!(d.len(), 1);
}
